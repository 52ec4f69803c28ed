use vstd::prelude::*;
use vstd::utf8::*;
use crate::config::Config;
use crate::decimal::parse_usize_spec;

verus! {

/// The texts of the command-line arguments.
pub open spec fn arg_texts(args: Seq<String>) -> Seq<Seq<char>> {
    args.map_values(|s: String| s@)
}

/// Index of the first argument equal to `name` at or after `i`, or the
/// number of arguments when there is none.
pub open spec fn first_index(xs: Seq<Seq<char>>, name: Seq<char>, i: int) -> int
    decreases xs.len() - i,
{
    if i < 0 || i >= xs.len() || xs[i] == name {
        i
    } else {
        first_index(xs, name, i + 1)
    }
}

/// The argument that follows the first occurrence of `name`, if both exist.
pub open spec fn arg_after(xs: Seq<Seq<char>>, name: Seq<char>) -> Option<Seq<char>> {
    let i = first_index(xs, name, 0);
    if i + 1 < xs.len() {
        Some(xs[i + 1])
    } else {
        None
    }
}

/// The number given after `name`, or `default` when the option is missing or
/// its value is not a number that fits.
pub open spec fn usize_option(xs: Seq<Seq<char>>, name: Seq<char>, default: usize) -> usize {
    match arg_after(xs, name) {
        Some(v) => match parse_usize_spec(encode_utf8(v)) {
            Some(x) => x,
            None => default,
        },
        None => default,
    }
}

/// Whether two texts are equal.
pub fn str_eq(a: &str, b: &str) -> (r: bool)
    ensures
        r == (a@ == b@),
{
    let r = crate::bytes::bytes_eq(a.as_bytes(), b.as_bytes());
    proof {
        encode_utf8_decode_utf8(a@);
        encode_utf8_decode_utf8(b@);
    }
    r
}

/// Index of the first argument equal to `name`, or the number of arguments.
fn position_of(args: &[String], name: &str) -> (r: usize)
    ensures
        r == first_index(arg_texts(args@), name@, 0),
{
    let n = args.len();
    let mut i: usize = 0;
    while i < n
        invariant
            n == args@.len(),
            0 <= i <= n,
            first_index(arg_texts(args@), name@, i as int) == first_index(
                arg_texts(args@),
                name@,
                0,
            ),
        decreases n - i,
    {
        if str_eq(args[i].as_str(), name) {
            return i;
        }
        i += 1;
    }
    i
}

/// The argument after `name`, if there is one.
pub fn parse_string_arg<'a>(args: &'a [String], name: &str) -> (r: Option<&'a str>)
    ensures
        match arg_after(arg_texts(args@), name@) {
            Some(v) => r matches Some(s) && s@ == v,
            None => r is None,
        },
{
    let i = position_of(args, name);
    if i < args.len() && i + 1 < args.len() {
        Some(args[i + 1].as_str())
    } else {
        None
    }
}

/// The number after `name`, or `default`.
pub fn parse_usize(args: &[String], name: &str, default: usize) -> (r: usize)
    ensures
        r == usize_option(arg_texts(args@), name@, default),
{
    match parse_string_arg(args, name) {
        Some(v) => match crate::decimal::parse_usize(v.as_bytes()) {
            Some(x) => x,
            None => default,
        },
        None => default,
    }
}

/// The number after `name`, or `default`.
pub fn parse_usize_arg(args: &[String], name: &str, default: usize) -> (r: usize)
    ensures
        r == usize_option(arg_texts(args@), name@, default),
{
    parse_usize(args, name, default)
}

/// The text after `name`, or `default`.
pub fn parse_string(args: &[String], name: &str, default: &str) -> (r: String)
    ensures
        r@ == match arg_after(arg_texts(args@), name@) {
            Some(v) => v,
            None => default@,
        },
{
    match parse_string_arg(args, name) {
        Some(v) => v.to_owned(),
        None => default.to_owned(),
    }
}

/// The target profile when `--target` is among the arguments, else the debug
/// profile.
pub fn config_from_args(args: &[String]) -> (c: Config)
    ensures
        c == if arg_texts(args@).contains("--target"@) {
            Config { vocab: 16_384, context: 1_024, d_model: 416, layers: 6, heads: 8, ffn: 1_664 }
        } else {
            Config { vocab: 258, context: 128, d_model: 64, layers: 2, heads: 4, ffn: 128 }
        },
{
    let flag = "--target";
    let i = position_of(args, flag);
    proof {
        let xs = arg_texts(args@);
        lemma_first_index(xs, flag@, 0);
    }
    if i < args.len() {
        Config::target()
    } else {
        Config::debug()
    }
}

proof fn lemma_first_index(xs: Seq<Seq<char>>, name: Seq<char>, i: int)
    requires
        0 <= i <= xs.len(),
        forall|j: int| 0 <= j < i ==> xs[j] != name,
    ensures
        first_index(xs, name, i) < xs.len() <==> xs.contains(name),
        i <= first_index(xs, name, i) <= xs.len(),
    decreases xs.len() - i,
{
    if i < xs.len() {
        if xs[i] == name {
        } else {
            lemma_first_index(xs, name, i + 1);
        }
    }
}

} // verus!
