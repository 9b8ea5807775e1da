//! Command-line settings: pairing `--key value` arguments and reading
//! typed values out of the resulting table.
//!
//! The table is a sequence of pairs; when a key was given twice, the
//! later pair wins, as the last assignment on a command line would.

use vstd::prelude::*;

use crate::text::spec_parse_int;
use crate::text::spec_parse_uint;
use crate::text::parse_i64;
use crate::text::parse_u64;
use crate::text::str_to_chars;

verus! {

/// The settings table as text: each pair of strings by its view.
pub open spec fn view_pairs(s: Seq<(String, String)>) -> Seq<(Seq<char>, Seq<char>)> {
    s.map_values(|p: (String, String)| (p.0@, p.1@))
}

/// An argument that names a key: it starts with `--`.
pub open spec fn spec_is_key(s: Seq<char>) -> bool {
    s.len() >= 2 && s[0] == '-' && s[1] == '-'
}

/// The pairs among the first `i` arguments, with whether the `i`th
/// argument is preceded by an unconsumed key.
pub open spec fn spec_settings_upto(args: Seq<Seq<char>>, i: int) -> (Seq<(Seq<char>, Seq<char>)>, bool)
    decreases i,
{
    if i <= 0 {
        (Seq::empty(), false)
    } else {
        let (acc, found) = spec_settings_upto(args, i - 1);
        if spec_is_key(args[i - 1]) {
            (acc, true)
        } else if found {
            (acc.push((args[i - 2], args[i - 1])), false)
        } else {
            (acc, false)
        }
    }
}

/// The settings table of an argument list: each `--key` argument is
/// paired with the argument that follows it, when that one is not
/// itself a key.
pub open spec fn spec_app_settings(args: Seq<Seq<char>>) -> Seq<(Seq<char>, Seq<char>)> {
    spec_settings_upto(args, args.len() as int).0
}

/// Whether `s` starts with `--`.
fn is_key_arg(s: &String) -> (r: bool)
    ensures
        r == spec_is_key(s@),
{
    let chars = str_to_chars(s.as_str());
    chars.len() >= 2 && chars[0] == '-' && chars[1] == '-'
}

/// Pairs each `--key` argument with the argument following it; the
/// settings table of the command line.
pub fn get_app_settings(args: Vec<String>) -> (settings: Vec<(String, String)>)
    ensures
        view_pairs(settings@) == spec_app_settings(args.deep_view()),
{
    let mut settings: Vec<(String, String)> = Vec::new();
    let mut found = false;
    let n = args.len();
    for i in 0..n
        invariant
            n == args@.len(),
            args.deep_view().len() == n,
            (forall|k: int| 0 <= k < n ==> #[trigger] args.deep_view()[k] == args@[k]@),
            (view_pairs(settings@), found) == spec_settings_upto(args.deep_view(), i as int),
            found ==> i >= 1,
    {
        if is_key_arg(&args[i]) {
            found = true;
        } else if found {
            settings.push((args[i - 1].clone(), args[i].clone()));
            found = false;
            proof {
                assert(view_pairs(settings@) =~= spec_settings_upto(
                    args.deep_view(),
                    i + 1,
                ).0);
            }
        }
        proof {
            assert(view_pairs(settings@) =~= spec_settings_upto(args.deep_view(), i + 1).0);
        }
    }
    settings
}

/// The value stored under `key`, the later of two assignments winning.
pub open spec fn spec_lookup(s: Seq<(Seq<char>, Seq<char>)>, key: Seq<char>) -> Option<Seq<char>>
    decreases s.len(),
{
    if s.len() == 0 {
        None
    } else if s.last().0 == key {
        Some(s.last().1)
    } else {
        spec_lookup(s.drop_last(), key)
    }
}

/// Looks `key` up in the settings table.
fn lookup<'a>(settings: &'a Vec<(String, String)>, key: &String) -> (r: Option<&'a String>)
    ensures
        (match r {
            Some(v) => spec_lookup(view_pairs(settings@), key@) == Some(v@),
            None => spec_lookup(view_pairs(settings@), key@) is None,
        }),
{
    let n = settings.len();
    let mut j = n;
    proof {
        assert(settings@.subrange(0, n as int) =~= settings@);
    }
    while j > 0
        invariant
            j <= n,
            n == settings@.len(),
            spec_lookup(view_pairs(settings@), key@) == spec_lookup(
                view_pairs(settings@.subrange(0, j as int)),
                key@,
            ),
        decreases j,
    {
        j = j - 1;
        proof {
            let whole = view_pairs(settings@.subrange(0, j + 1));
            assert(whole.last() == (settings@[j as int].0@, settings@[j as int].1@));
            assert(whole.drop_last() =~= view_pairs(settings@.subrange(0, j as int)));
        }
        if settings[j].0 == *key {
            return Some(&settings[j].1);
        }
    }
    proof {
        assert(view_pairs(settings@.subrange(0, 0)) =~= Seq::<(Seq<char>, Seq<char>)>::empty());
    }
    None
}

/// The text chosen for `key`: the stored value, or `default` when the
/// key is absent.
pub open spec fn spec_chosen(
    s: Seq<(Seq<char>, Seq<char>)>,
    key: Seq<char>,
    default: Seq<char>,
) -> Seq<char> {
    match spec_lookup(s, key) {
        Some(v) => v,
        None => default,
    }
}

/// The string stored under `key`, or `default` when absent.
pub fn get_string_from_settings(
    settings: &Vec<(String, String)>,
    key: String,
    default: String,
) -> (r: String)
    ensures
        r@ == spec_chosen(view_pairs(settings@), key@, default@),
{
    match lookup(settings, &key) {
        Some(v) => v.clone(),
        None => default,
    }
}

/// The unsigned number stored under `key`, or `default` when absent.
/// The chosen text must denote one that fits, as the caller's own
/// defaults always do.
pub fn get_usize_from_settings(
    settings: &Vec<(String, String)>,
    key: String,
    default: String,
) -> (r: usize)
    requires
        (spec_parse_uint(spec_chosen(view_pairs(settings@), key@, default@)) matches Some(v)
            && v <= usize::MAX as int),
    ensures
        Some(r as int) == spec_parse_uint(spec_chosen(view_pairs(settings@), key@, default@)),
{
    let chosen = get_string_from_settings(settings, key, default);
    let chars = str_to_chars(chosen.as_str());
    let v = match parse_u64(&chars) {
        Some(v) => v,
        None => unreached(),
    };
    if v <= usize::MAX as u64 {
        v as usize
    } else {
        unreached()
    }
}

/// The signed number stored under `key`, which must be present and
/// must denote one that fits.
pub fn get_i64_from_settings(settings: &Vec<(String, String)>, key: &String) -> (r: i64)
    requires
        (spec_lookup(view_pairs(settings@), key@) matches Some(text)
            && spec_parse_int(text) matches Some(v) && i64::MIN as int <= v <= i64::MAX as int),
    ensures
        (spec_lookup(view_pairs(settings@), key@) matches Some(text) && Some(r as int)
            == spec_parse_int(text)),
{
    let text = match lookup(settings, key) {
        Some(v) => v,
        None => unreached(),
    };
    let chars = str_to_chars(text.as_str());
    match parse_i64(&chars) {
        Some(v) => v,
        None => unreached(),
    }
}

} // verus!
