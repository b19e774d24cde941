//! Reading the command-line arguments of the tools: Fluent identifiers,
//! `old=new` renamings, line numbers and path arguments.
use vstd::prelude::*;
use crate::text::{push_char, push_str, str_chars};

verus! {

/// `[a-zA-Z]`
pub open spec fn is_ascii_letter(c: char) -> bool {
    ('a' <= c && c <= 'z') || ('A' <= c && c <= 'Z')
}

/// `[a-zA-Z0-9]`
pub open spec fn is_ascii_letter_or_digit(c: char) -> bool {
    is_ascii_letter(c) || ('0' <= c && c <= '9')
}

/// `[a-zA-Z0-9_-]`, the characters allowed after the first one.
pub open spec fn is_identifier_char(c: char) -> bool {
    is_ascii_letter_or_digit(c) || c == '_' || c == '-'
}

/// Whether `s` is a Fluent identifier, `[a-zA-Z] [a-zA-Z0-9_-]*`.
pub open spec fn is_fluent_identifier(s: Seq<char>) -> bool {
    &&& s.len() > 0
    &&& is_ascii_letter(s[0])
    &&& forall|i: int| 1 <= i < s.len() ==> is_identifier_char(#[trigger] s[i])
}

/// The position of the first character after the first one that is not
/// allowed in an identifier, or `s.len()`.
pub open spec fn first_bad_identifier_char(s: Seq<char>, from: int) -> int
    decreases s.len() - from,
{
    if from >= s.len() {
        s.len() as int
    } else if !is_identifier_char(s[from]) {
        from
    } else {
        first_bad_identifier_char(s, from + 1)
    }
}

/// The complaint about a string that is not a Fluent identifier.
pub open spec fn identifier_error(s: Seq<char>) -> Seq<char> {
    if s.len() == 0 {
        "Identifier may not be empty."@
    } else if !is_ascii_letter(s[0]) {
        "Identifier must start with an alphabetic ASCII character but starts with '"@.push(s[0]) + "'."@
    } else {
        "Identifier characters must be alphanumeric ASCII or '_' or '-'. Found '"@.push(
            s[first_bad_identifier_char(s, 1)],
        ) + "' instead."@
    }
}

proof fn lemma_first_bad(s: Seq<char>, from: int)
    requires
        1 <= from <= s.len(),
        forall|i: int| 1 <= i < from ==> is_identifier_char(#[trigger] s[i]),
    ensures
        first_bad_identifier_char(s, from) == s.len() <==> (forall|i: int| 1 <= i < s.len() ==> is_identifier_char(#[trigger] s[i])),
        first_bad_identifier_char(s, from) < s.len() ==> 1 <= first_bad_identifier_char(s, from)
            && !is_identifier_char(s[first_bad_identifier_char(s, from)]),
    decreases s.len() - from,
{
    if from < s.len() && is_identifier_char(s[from]) {
        lemma_first_bad(s, from + 1);
    }
}

/// Checks that `arg` is a Fluent identifier, `[a-zA-Z] [a-zA-Z0-9_-]*`.
pub fn parse_fluent_identifier(arg: &str) -> (r: Result<(), String>)
    ensures
        r is Ok <==> is_fluent_identifier(arg@),
        r matches Err(e) ==> e@ == identifier_error(arg@),
{
    let chars = str_chars(arg);
    let n = chars.len();
    if n == 0 {
        return Err("Identifier may not be empty.".to_owned());
    }
    let first = chars[0];
    if !(('a' <= first && first <= 'z') || ('A' <= first && first <= 'Z')) {
        let mut e = "Identifier must start with an alphabetic ASCII character but starts with '".to_owned();
        push_char(&mut e, first);
        push_str(&mut e, "'.");
        return Err(e);
    }
    let mut i: usize = 1;
    while i < n
        invariant
            1 <= i <= n == chars@.len(),
            chars@ == arg@,
            is_ascii_letter(chars@[0]),
            forall|j: int| 1 <= j < i ==> is_identifier_char(#[trigger] chars@[j]),
            first_bad_identifier_char(chars@, 1) == first_bad_identifier_char(chars@, i as int),
        decreases n - i,
    {
        let c = chars[i];
        if !((('a' <= c && c <= 'z') || ('A' <= c && c <= 'Z') || ('0' <= c && c <= '9')) || c == '_' || c == '-') {
            let mut e = "Identifier characters must be alphanumeric ASCII or '_' or '-'. Found '".to_owned();
            push_char(&mut e, c);
            push_str(&mut e, "' instead.");
            assert(first_bad_identifier_char(chars@, i as int) == i as int);
            return Err(e);
        }
        i = i + 1;
    }
    proof {
        lemma_first_bad(chars@, 1);
    }
    Ok(())
}

/// The index of the first argument that is not a Fluent identifier, or the
/// number of arguments.
pub open spec fn first_non_identifier(args: Seq<Seq<char>>) -> int
    decreases args.len(),
{
    if args.len() == 0 {
        0
    } else if !is_fluent_identifier(args[0]) {
        0
    } else {
        1 + first_non_identifier(args.drop_first())
    }
}

/// The views of a list of strings.
pub open spec fn views(v: Seq<String>) -> Seq<Seq<char>> {
    v.map_values(|s: String| s@)
}

/// Checks that every argument is a Fluent identifier and returns them.
pub fn parse_fluent_identifiers(args: Vec<String>) -> (r: Result<Vec<String>, String>)
    ensures
        ({
            let k = first_non_identifier(views(args@));
            match r {
                Ok(ids) => k == args@.len() && ids@ == args@,
                Err(e) => k < args@.len() && e@ == "Failed to parse Fluent identifier:\n"@ + identifier_error(args@[k]@),
            }
        }),
{
    let ghost vs = views(args@);
    let n = args.len();
    let mut i: usize = 0;
    assert(vs.skip(0) =~= vs);
    while i < n
        invariant
            i <= n == args@.len(),
            vs == views(args@),
            first_non_identifier(vs) == i + first_non_identifier(vs.skip(i as int)),
            forall|j: int| 0 <= j < i ==> is_fluent_identifier(#[trigger] vs[j]),
        decreases n - i,
    {
        assert(vs.skip(i as int).drop_first() =~= vs.skip(i + 1));
        assert(vs.skip(i as int)[0] == vs[i as int]);
        match parse_fluent_identifier(args[i].as_str()) {
            Ok(()) => {},
            Err(e) => {
                let mut m = "Failed to parse Fluent identifier:\n".to_owned();
                push_str(&mut m, e.as_str());
                return Err(m);
            },
        }
        i = i + 1;
    }
    assert(vs.skip(n as int) =~= Seq::<Seq<char>>::empty());
    Ok(args)
}

/// Whether an argument is `--`.
pub open spec fn is_double_minus(s: Seq<char>) -> bool {
    s =~= seq!['-', '-']
}

fn double_minus(s: &str) -> (b: bool)
    ensures
        b == is_double_minus(s@),
{
    let c = str_chars(s);
    c.len() == 2 && c[0] == '-' && c[1] == '-'
}

/// The position of the first `--` among the arguments, or their number.
pub open spec fn double_minus_position(args: Seq<Seq<char>>) -> int
    decreases args.len(),
{
    if args.len() == 0 {
        0
    } else if is_double_minus(args[0]) {
        0
    } else {
        1 + double_minus_position(args.drop_first())
    }
}

/// Applies `parser` to the arguments before the first `--` and returns the
/// results with the arguments after it; nothing when there is no `--`.
pub fn parse_until_double_minus<T, F: Fn(String) -> T>(args: Vec<String>, parser: F) -> (r: Option<(Vec<T>, Vec<String>)>)
    requires
        forall|s: String| #[trigger] parser.requires((s,)),
    ensures
        ({
            let k = double_minus_position(views(args@));
            match r {
                None => k == args@.len(),
                Some((parsed, rest)) => k < args@.len() && parsed@.len() == k && rest@ == args@.skip(k + 1)
                    && forall|i: int| 0 <= i < k ==> parser.ensures((args@[i],), #[trigger] parsed@[i]),
            }
        }),
{
    let ghost vs = views(args@);
    let mut parsed: Vec<T> = Vec::new();
    let n = args.len();
    let mut i: usize = 0;
    assert(vs.skip(0) =~= vs);
    while i < n
        invariant
            i <= n == args@.len(),
            vs == views(args@),
            double_minus_position(vs) == i + double_minus_position(vs.skip(i as int)),
            forall|j: int| 0 <= j < i ==> !is_double_minus(#[trigger] vs[j]),
            parsed@.len() == i,
            forall|j: int| 0 <= j < i ==> parser.ensures((args@[j],), #[trigger] parsed@[j]),
            forall|s: String| #[trigger] parser.requires((s,)),
        decreases n - i,
    {
        assert(vs.skip(i as int).drop_first() =~= vs.skip(i + 1));
        assert(vs.skip(i as int)[0] == vs[i as int]);
        if double_minus(args[i].as_str()) {
            let mut args = args;
            let rest = args.split_off(i + 1);
            return Some((parsed, rest));
        }
        let item = parser(args[i].clone());
        parsed.push(item);
        i = i + 1;
    }
    assert(vs.skip(n as int) =~= Seq::<Seq<char>>::empty());
    None
}

/// Applies `parser` to the first argument and returns the result with the
/// other arguments; nothing when there is no argument.
pub fn parse_next_arg<T, P: FnOnce(String) -> T>(args: Vec<String>, parser: P) -> (r: Option<(T, Vec<String>)>)
    requires
        forall|s: String| #[trigger] parser.requires((s,)),
    ensures
        match r {
            None => args@.len() == 0,
            Some((v, rest)) => args@.len() > 0 && rest@ == args@.drop_first() && parser.ensures((args@[0],), v),
        },
{
    if args.len() == 0 {
        return None;
    }
    let mut args = args;
    let first = args.remove(0);
    Some((parser(first), args))
}

/// The value of a string of decimal digits.
pub open spec fn digits_value(d: Seq<char>) -> nat
    decreases d.len(),
{
    if d.len() == 0 {
        0
    } else {
        digits_value(d.drop_last()) * 10 + ((d.last() as int - '0' as int) as nat)
    }
}

/// Whether every character of `d` is a decimal digit.
pub open spec fn all_digits(d: Seq<char>) -> bool {
    forall|i: int| 0 <= i < d.len() ==> '0' <= #[trigger] d[i] && d[i] <= '9'
}

/// The number written by `s` as `usize::from_str` reads it: an optional `+`,
/// then one or more decimal digits, with a value that fits in a `usize`.
pub open spec fn usize_literal(s: Seq<char>) -> Option<nat> {
    let d = if s.len() > 0 && s[0] == '+' { s.skip(1) } else { s };
    if d.len() > 0 && all_digits(d) && digits_value(d) <= usize::MAX {
        Some(digits_value(d))
    } else {
        None
    }
}

#[verifier::external_type_specification]
#[verifier::external_body]
pub struct ExParseIntError(core::num::ParseIntError);

/// `str::parse::<usize>`, which accepts exactly an optional `+` followed by
/// decimal digits whose value fits in a `usize`, and gives that value. The
/// error value (empty input, invalid digit or overflow) is not described.
#[verifier::external_body]
fn parse_usize_text(s: &str) -> (r: Result<usize, core::num::ParseIntError>)
    ensures
        r is Ok <==> usize_literal(s@) is Some,
        r matches Ok(n) ==> usize_literal(s@) == Some(n as nat),
{
    s.parse::<usize>()
}

/// Reads the first argument as a `usize`; nothing when there is no argument.
pub fn parse_usize(args: Vec<String>) -> (r: Option<(Result<usize, core::num::ParseIntError>, Vec<String>)>)
    ensures
        match r {
            None => args@.len() == 0,
            Some((v, rest)) => args@.len() > 0 && rest@ == args@.drop_first()
                && (v is Ok <==> usize_literal(args@[0]@) is Some)
                && (v matches Ok(n) ==> usize_literal(args@[0]@) == Some(n as nat)),
        },
{
    let parser = |arg: String| -> (v: Result<usize, core::num::ParseIntError>)
        ensures
            v is Ok <==> usize_literal(arg@) is Some,
            v matches Ok(n) ==> usize_literal(arg@) == Some(n as nat),
        { parse_usize_text(arg.as_str()) };
    parse_next_arg(args, parser)
}

/// Takes the first argument as a path; nothing when there is no argument.
pub fn parse_single_file_arg(args: Vec<String>) -> (r: Option<(String, Vec<String>)>)
    ensures
        match r {
            None => args@.len() == 0,
            Some((p, rest)) => args@.len() > 0 && p == args@[0] && rest@ == args@.drop_first(),
        },
{
    let parser = |arg: String| -> (p: String) ensures p == arg { arg };
    parse_next_arg(args, parser)
}

/// What `{:?}` prints for a string: the text in double quotes, with the
/// characters that `char::escape_debug` escapes escaped.
pub uninterp spec fn debug_text(s: Seq<char>) -> Seq<char>;

/// `format!("{:?}", s)` for a string slice.
#[verifier::external_body]
pub(crate) fn debug_quoted(s: &str) -> (r: String)
    ensures
        r@ == debug_text(s@),
{
    format!("{:?}", s)
}

/// What `{:?}` prints for the `Path` that a string names.
pub uninterp spec fn path_debug_text(s: Seq<char>) -> Seq<char>;

/// `format!("{:?}", Path::new(s))`: how a path is shown in messages.
#[verifier::external_body]
pub(crate) fn debug_path(s: &str) -> (r: String)
    ensures
        r@ == path_debug_text(s@),
{
    format!("{:?}", std::path::Path::new(s))
}

/// What `{:?}` prints for a list of paths given as strings.
pub open spec fn debug_list(items: Seq<Seq<char>>) -> Seq<char> {
    "["@ + debug_items(items) + "]"@
}

/// The debug texts of the paths, separated by `, `.
pub open spec fn debug_items(items: Seq<Seq<char>>) -> Seq<char>
    decreases items.len(),
{
    if items.len() == 0 {
        Seq::empty()
    } else if items.len() == 1 {
        path_debug_text(items[0])
    } else {
        debug_items(items.drop_last()) + ", "@ + path_debug_text(items.last())
    }
}

/// Appends what `{:?}` prints for a list of paths.
pub fn push_debug_list(out: &mut String, items: &Vec<String>)
    ensures
        final(out)@ == old(out)@ + debug_list(views(items@)),
{
    let ghost vs = views(items@);
    let ghost start = out@;
    push_str(out, "[");
    let n = items.len();
    let mut i: usize = 0;
    assert(vs.take(0) =~= Seq::<Seq<char>>::empty());
    while i < n
        invariant
            i <= n == items@.len(),
            vs == views(items@),
            out@ == start + "["@ + debug_items(vs.take(i as int)),
        decreases n - i,
    {
        if i > 0 {
            push_str(out, ", ");
        }
        let d = debug_path(items[i].as_str());
        push_str(out, d.as_str());
        assert(vs.take(i + 1).drop_last() =~= vs.take(i as int));
        proof {
            if i == 0 {
                assert(vs.take(1) =~= seq![vs[0]]);
            }
        }
        i = i + 1;
    }
    assert(vs.take(n as int) =~= vs);
    push_str(out, "]");
    assert(out@ =~= start + debug_list(vs));
}

/// Checks the paths named by the first argument and hands on the others:
/// `required_file_paths` is `None` when there is no argument, and otherwise
/// the files the first argument names; `other_file_paths` is what the other
/// arguments name, or the error met reading them. The first argument must
/// name exactly one file.
pub fn parse_file_args_with_required_file(
    required_file_paths: Option<Vec<String>>,
    other_file_paths: Result<Vec<String>, String>,
) -> (r: Result<(String, Vec<String>), String>)
    ensures
        match required_file_paths {
            None => r is Err && r->Err_0@ == "Too few arguments."@,
            Some(paths) => if paths@.len() == 1 {
                match other_file_paths {
                    Ok(others) => r == Ok::<(String, Vec<String>), String>((paths@[0], others)),
                    Err(e) => r == Err::<(String, Vec<String>), String>(e),
                }
            } else {
                r is Err && r->Err_0@ == "First argument must refer to exactly one file.\nInstead, it refers to "@
                    + crate::text::decimal(paths@.len() as nat) + ":\n"@ + debug_list(views(paths@)) + "\n"@
            },
        },
{
    let required_file_paths = match required_file_paths {
        None => { return Err("Too few arguments.".to_owned()); },
        Some(paths) => paths,
    };
    if required_file_paths.len() != 1 {
        let mut e = "First argument must refer to exactly one file.\nInstead, it refers to ".to_owned();
        crate::text::push_decimal(&mut e, required_file_paths.len());
        push_str(&mut e, ":\n");
        push_debug_list(&mut e, &required_file_paths);
        push_str(&mut e, "\n");
        return Err(e);
    }
    let mut required_file_paths = required_file_paths;
    let required_file_path = required_file_paths.remove(0);
    let other_file_paths = other_file_paths?;
    Ok((required_file_path, other_file_paths))
}

} // verus!
