//! Turning a printf-style gettext string into the source of a Fluent
//! message, and suggesting the Rust code that uses the new message.
use vstd::prelude::*;
use crate::text::{push_char, push_decimal, push_str, str_chars};

verus! {

/// `{"{"}`: how a literal `{` is written in Fluent.
pub open spec fn escaped_open_brace() -> Seq<char> {
    "{\"{\"}"@
}

/// `{"}"}`: how a literal `}` is written in Fluent.
pub open spec fn escaped_close_brace() -> Seq<char> {
    "{\"}\"}"@
}

/// `{ "\u000A" }`: how a line break inside a message is written in Fluent.
pub open spec fn escaped_newline() -> Seq<char> {
    "{ \"\\u000A\" }"@
}

/// The placeable `{ $name }`.
pub open spec fn variable_placeable(name: Seq<char>) -> Seq<char> {
    "{ $"@ + name + " }"@
}

/// Whether a character is one of the supported conversions `%c %d %s %u`.
pub open spec fn is_supported_conversion(c: char) -> bool {
    c == 'c' || c == 'd' || c == 's' || c == 'u'
}

/// Converts the text `s` of a format string, where `used` variable names
/// have been consumed: the Fluent text and the number of names used in
/// total, or the first problem found.
pub open spec fn convert_format(s: Seq<char>, vars: Seq<Seq<char>>, used: nat) -> Result<(Seq<char>, nat), Seq<char>>
    decreases s.len(),
{
    if s.len() == 0 {
        Ok((Seq::empty(), used))
    } else if s[0] == '%' {
        if s.len() == 1 {
            Err("Ran out of characters in conversion specifier."@)
        } else if s[1] == '%' {
            prepend_text(seq!['%'], convert_format(s.skip(2), vars, used))
        } else if is_supported_conversion(s[1]) {
            if used >= vars.len() {
                Err("Insufficient number of variables provided."@)
            } else {
                prepend_text(variable_placeable(vars[used as int]), convert_format(s.skip(2), vars, used + 1))
            }
        } else {
            Err("Unsupported conversion specifier. Please convert manually."@)
        }
    } else {
        let piece = if s[0] == '{' {
            escaped_open_brace()
        } else if s[0] == '}' {
            escaped_close_brace()
        } else if s[0] == '\n' {
            escaped_newline()
        } else {
            seq![s[0]]
        };
        prepend_text(piece, convert_format(s.skip(1), vars, used))
    }
}

/// Prepends text to a successful conversion.
pub open spec fn prepend_text(t: Seq<char>, r: Result<(Seq<char>, nat), Seq<char>>) -> Result<(Seq<char>, nat), Seq<char>> {
    match r {
        Ok((s, n)) => Ok((t + s, n)),
        Err(e) => Err(e),
    }
}

/// The views of a list of strings.
pub open spec fn strings_view(v: Seq<String>) -> Seq<Seq<char>> {
    v.map_values(|s: String| s@)
}

/// The Fluent message `id = ...` for a printf-style format string whose
/// conversions `%c %d %s %u` take the given variable names in order.
pub open spec fn fluent_message_source(format: Seq<char>, id: Seq<char>, vars: Seq<Seq<char>>) -> Result<Seq<char>, Seq<char>> {
    match convert_format(format, vars, 0) {
        Err(e) => Err(e),
        Ok((body, used)) => if used < vars.len() {
            Err("Excess arguments. There are "@ + crate::text::decimal(used) + " conversion specifiers in\n"@ + format
                + "\nbut "@ + crate::text::decimal(vars.len()) + " variable names were provided."@)
        } else {
            Ok(id + " = "@ + body)
        },
    }
}

/// Converts the conversion specification that starts with the `%` at
/// `input_chars[*input_char_index]`, appending its Fluent form to
/// `result_string` and consuming a variable name for `%c %d %s %u`. The
/// index is left on the specification's last character.
pub fn convert_conversion_specifier(
    input_chars: &[char],
    input_char_index: &mut usize,
    replacement_variables: &[String],
    variable_index: &mut usize,
    result_string: &mut String,
) -> (r: Result<(), String>)
    requires
        *old(input_char_index) < input_chars@.len(),
        input_chars@[*old(input_char_index) as int] == '%',
    ensures
        *final(input_char_index) == *old(input_char_index) + 1,
        *old(variable_index) <= replacement_variables@.len() ==> *final(variable_index) <= replacement_variables@.len(),
        ({
            let s = input_chars@.skip(*old(input_char_index) as int);
            let vars = strings_view(replacement_variables@);
            let step = convert_format(s, vars, *old(variable_index) as nat);
            let rest = convert_format(s.skip(2), vars, *final(variable_index) as nat);
            match r {
                Ok(()) => *old(input_char_index) + 1 < input_chars@.len()
                    && step == prepend_text(final(result_string)@.subrange(old(result_string)@.len() as int, final(result_string)@.len() as int), rest)
                    && old(result_string)@.is_prefix_of(final(result_string)@),
                Err(e) => step == Err::<(Seq<char>, nat), Seq<char>>(e@)
                    && *final(variable_index) == *old(variable_index)
                    && final(result_string)@ == old(result_string)@,
            }
        }),
        ({
            let i0 = *old(input_char_index) as int;
            let v0 = *old(variable_index) as int;
            let vars = strings_view(replacement_variables@);
            let c = input_chars@[i0 + 1];
            &&& r is Ok <==> i0 + 1 < input_chars@.len() && (c == '%' || (is_supported_conversion(c) && v0 < vars.len()))
            &&& r is Ok && c == '%' ==> final(result_string)@ == old(result_string)@ + seq!['%']
                && *final(variable_index) == v0
            &&& r is Ok && c != '%' ==> final(result_string)@ == old(result_string)@ + variable_placeable(vars[v0])
                && *final(variable_index) == v0 + 1
        }),
{
    let ghost s = input_chars@.skip(*old(input_char_index) as int);
    let ghost vars = strings_view(replacement_variables@);
    let n = input_chars.len();
    *input_char_index = *input_char_index + 1;
    if *input_char_index >= input_chars.len() {
        return Err("Ran out of characters in conversion specifier.".to_owned());
    }
    let c = input_chars[*input_char_index];
    let ghost before = result_string@;
    if c == '%' {
        push_char(result_string, '%');
        proof {
            assert(result_string@.subrange(before.len() as int, result_string@.len() as int) =~= seq!['%']);
            assert(before.is_prefix_of(result_string@));
        }
        return Ok(());
    } else if c == 'c' || c == 'd' || c == 's' || c == 'u' {
        if *variable_index >= replacement_variables.len() {
            return Err("Insufficient number of variables provided.".to_owned());
        }
        push_str(result_string, "{ $");
        push_str(result_string, replacement_variables[*variable_index].as_str());
        push_str(result_string, " }");
        proof {
            assert(vars[*old(variable_index) as int] == replacement_variables@[*old(variable_index) as int]@);
            assert(result_string@.subrange(before.len() as int, result_string@.len() as int)
                =~= variable_placeable(vars[*old(variable_index) as int]));
            assert(before.is_prefix_of(result_string@));
        }
        *variable_index = *variable_index + 1;
    } else {
        return Err("Unsupported conversion specifier. Please convert manually.".to_owned());
    }
    Ok(())
}

/// The source of the Fluent message `fluent_message_id` holding the text of
/// a printf-style format string: `%c %d %s %u` become placeables of the
/// given variables in order, `%%` becomes `%`, and braces and line breaks
/// are escaped. Every variable name must be used.
pub fn fluent_message_from_po_string(
    format_string: &str,
    fluent_message_id: &str,
    replacement_variables: &[String],
) -> (r: Result<String, String>)
    ensures
        match r {
            Ok(m) => fluent_message_source(format_string@, fluent_message_id@, strings_view(replacement_variables@))
                == Ok::<Seq<char>, Seq<char>>(m@),
            Err(e) => fluent_message_source(format_string@, fluent_message_id@, strings_view(replacement_variables@))
                == Err::<Seq<char>, Seq<char>>(e@),
        },
{
    let ghost vars = strings_view(replacement_variables@);
    let mut result = fluent_message_id.to_owned();
    push_str(&mut result, " = ");
    let ghost head = result@;
    let mut variable_index: usize = 0;
    let input_chars = str_chars(format_string);
    let mut input_char_index: usize = 0;
    assert(input_chars@.skip(0) =~= input_chars@);
    assert(result@.subrange(head.len() as int, result@.len() as int) =~= Seq::<char>::empty());
    while input_char_index < input_chars.len()
        invariant
            input_char_index <= input_chars@.len(),
            input_chars@ == format_string@,
            vars == strings_view(replacement_variables@),
            variable_index <= replacement_variables@.len(),
            head.is_prefix_of(result@),
            head == fluent_message_id@ + " = "@,
            convert_format(format_string@, vars, 0) == prepend_text(
                result@.subrange(head.len() as int, result@.len() as int),
                convert_format(input_chars@.skip(input_char_index as int), vars, variable_index as nat),
            ),
        decreases input_chars@.len() - input_char_index,
    {
        let ghost s = input_chars@.skip(input_char_index as int);
        let ghost done = result@.subrange(head.len() as int, result@.len() as int);
        let c = input_chars[input_char_index];
        if c == '%' {
            let ghost vi = variable_index;
            convert_conversion_specifier(&input_chars, &mut input_char_index, replacement_variables, &mut variable_index, &mut result)?;
            proof {
                let added = result@.subrange((head.len() + done.len()) as int, result@.len() as int);
                assert(result@.subrange(head.len() as int, result@.len() as int) =~= done + added);
                assert(s.skip(2) =~= input_chars@.skip(input_char_index + 1));
                lemma_prepend_twice(done, added, convert_format(s.skip(2), vars, variable_index as nat));
            }
        } else {
            if c == '{' {
                push_str(&mut result, "{\"{\"}");
            } else if c == '}' {
                push_str(&mut result, "{\"}\"}");
            } else if c == '\n' {
                push_str(&mut result, "{ \"\\u000A\" }");
            } else {
                push_char(&mut result, c);
            }
            proof {
                let added = result@.subrange((head.len() + done.len()) as int, result@.len() as int);
                assert(result@.subrange(head.len() as int, result@.len() as int) =~= done + added);
                assert(s.skip(1) =~= input_chars@.skip(input_char_index + 1));
                assert(s[0] == c);
                if c == '{' {
                    assert(added =~= escaped_open_brace());
                } else if c == '}' {
                    assert(added =~= escaped_close_brace());
                } else if c == '\n' {
                    assert(added =~= escaped_newline());
                } else {
                    assert(added =~= seq![c]);
                }
                assert(convert_format(s, vars, variable_index as nat)
                    == prepend_text(added, convert_format(s.skip(1), vars, variable_index as nat)));
                lemma_prepend_twice(done, added, convert_format(s.skip(1), vars, variable_index as nat));
            }
        }
        input_char_index = input_char_index + 1;
    }
    assert(input_chars@.skip(input_char_index as int) =~= Seq::<char>::empty());
    let ghost body = result@.subrange(head.len() as int, result@.len() as int);
    assert(result@ =~= fluent_message_id@ + " = "@ + body);
    if variable_index < replacement_variables.len() {
        let mut e = "Excess arguments. There are ".to_owned();
        push_decimal(&mut e, variable_index);
        push_str(&mut e, " conversion specifiers in\n");
        push_str(&mut e, format_string);
        push_str(&mut e, "\nbut ");
        push_decimal(&mut e, replacement_variables.len());
        push_str(&mut e, " variable names were provided.");
        return Err(e);
    }
    Ok(result)
}

proof fn lemma_prepend_twice(a: Seq<char>, b: Seq<char>, r: Result<(Seq<char>, nat), Seq<char>>)
    ensures
        prepend_text(a, prepend_text(b, r)) == prepend_text(a + b, r),
{
    match r {
        Ok((s, n)) => {
            assert(a + (b + s) =~= (a + b) + s);
        },
        Err(_) => {},
    }
}

/// `name = todo!()` for each variable, each after `, `.
pub open spec fn suggestion_arguments(vars: Seq<Seq<char>>) -> Seq<char>
    decreases vars.len(),
{
    if vars.len() == 0 {
        Seq::empty()
    } else {
        suggestion_arguments(vars.drop_last()) + ", "@ + vars.last() + " = todo"@ + "!()"@
    }
}

/// The Rust statement that prints the new message with its variables.
pub open spec fn rust_suggestion(id: Seq<char>, vars: Seq<Seq<char>>) -> Seq<char> {
    "localized_println!(\""@ + id + seq!['"'] + suggestion_arguments(vars) + ");"@
}

/// Suggests the Rust code that prints message `message_id`, with a
/// placeholder value for each of its variables.
pub fn rust_source_suggestion(message_id: &str, variable_names: &[String]) -> (s: String)
    ensures
        s@ == rust_suggestion(message_id@, strings_view(variable_names@)),
{
    let ghost vars = strings_view(variable_names@);
    let mut result = String::new();
    push_str(&mut result, "localized_println!(\"");
    push_str(&mut result, message_id);
    push_char(&mut result, '"');
    let ghost head = result@;
    let n = variable_names.len();
    let mut i: usize = 0;
    assert(vars.take(0) =~= Seq::<Seq<char>>::empty());
    while i < n
        invariant
            i <= n == variable_names@.len(),
            vars == strings_view(variable_names@),
            result@ == head + suggestion_arguments(vars.take(i as int)),
        decreases n - i,
    {
        push_str(&mut result, ", ");
        push_str(&mut result, variable_names[i].as_str());
        push_str(&mut result, " = todo");
        push_str(&mut result, "!()");
        assert(vars.take(i + 1).drop_last() =~= vars.take(i as int));
        i = i + 1;
    }
    assert(vars.take(n as int) =~= vars);
    push_str(&mut result, ");");
    result
}

/// The number of conversions `%c %d %s %u` in a printf-style format string,
/// where `%%` is a literal percent sign.
pub open spec fn count_conversions(s: Seq<char>) -> nat
    decreases s.len(),
{
    if s.len() == 0 {
        0
    } else if s[0] == '%' && s.len() >= 2 {
        let here: nat = if s[1] == 'c' || s[1] == 'd' || s[1] == 's' || s[1] == 'u' { 1 } else { 0 };
        here + count_conversions(s.skip(2))
    } else {
        count_conversions(s.skip(1))
    }
}

/// Whether every `%` of a format string starts `%%` or one of the
/// conversions `%c %d %s %u`.
pub open spec fn conversions_supported(s: Seq<char>) -> bool
    decreases s.len(),
{
    if s.len() == 0 {
        true
    } else if s[0] == '%' {
        &&& s.len() >= 2
        &&& s[1] == '%' || s[1] == 'c' || s[1] == 'd' || s[1] == 's' || s[1] == 'u'
        &&& conversions_supported(s.skip(2))
    } else {
        conversions_supported(s.skip(1))
    }
}

proof fn lemma_convert_format_uses(s: Seq<char>, vars: Seq<Seq<char>>, used: nat)
    requires
        used <= vars.len(),
    ensures
        convert_format(s, vars, used) is Ok <==> conversions_supported(s) && used + count_conversions(s) <= vars.len(),
        convert_format(s, vars, used) is Ok ==> convert_format(s, vars, used)->Ok_0.1 == used + count_conversions(s),
    decreases s.len(),
{
    if s.len() > 0 {
        if s[0] == '%' {
            if s.len() >= 2 {
                if s[1] == '%' {
                    lemma_convert_format_uses(s.skip(2), vars, used);
                    assert(convert_format(s, vars, used) == prepend_text(seq!['%'], convert_format(s.skip(2), vars, used)));
                    assert(conversions_supported(s) == conversions_supported(s.skip(2)));
                    assert(count_conversions(s) == count_conversions(s.skip(2)));
                } else if is_supported_conversion(s[1]) {
                    if used < vars.len() {
                        lemma_convert_format_uses(s.skip(2), vars, used + 1);
                    }
                    assert(conversions_supported(s) == conversions_supported(s.skip(2)));
                    assert(count_conversions(s) == 1 + count_conversions(s.skip(2)));
                } else {
                    assert(!conversions_supported(s));
                }
            } else {
                assert(!conversions_supported(s));
            }
        } else {
            lemma_convert_format_uses(s.skip(1), vars, used);
            assert(count_conversions(s) == count_conversions(s.skip(1)));
            assert(conversions_supported(s) == conversions_supported(s.skip(1)));
        }
    }
}

/// A format string becomes a Fluent message exactly when each of its `%`
/// starts `%%` or a conversion `%c %d %s %u`, and it has exactly one
/// conversion for each variable name given; the message is then
/// `id = ...`.
pub proof fn lemma_message_uses_every_name(format: Seq<char>, id: Seq<char>, vars: Seq<Seq<char>>)
    ensures
        fluent_message_source(format, id, vars) is Ok
            <==> conversions_supported(format) && count_conversions(format) == vars.len(),
        fluent_message_source(format, id, vars) is Ok
            ==> (id + " = "@).is_prefix_of(fluent_message_source(format, id, vars)->Ok_0),
{
    lemma_convert_format_uses(format, vars, 0);
    if fluent_message_source(format, id, vars) is Ok {
        let body = convert_format(format, vars, 0)->Ok_0.0;
        assert((id + " = "@ + body).subrange(0, (id + " = "@).len() as int) =~= id + " = "@);
    }
}

} // verus!
