//! What the grammar reads where a known text stands: the lemmas from which
//! the laws of the library follow.
use vstd::prelude::*;
use crate::ast::JsonValue;
use crate::grammar::{
    array_at, at, bare_value_at, char_at, colon_end, decode_utf16, digits_end, escape_run,
    escape_unit, escape_units, exponent_end, fraction_end, hex_number, hex_unit, hex_value,
    integer_end, is_digit, is_number_literal, is_whitespace, items_at, lemma_digits_end,
    lemma_members_skip, lemma_value_skips, literal_end, member_at, members_at, number_end,
    object_at, short_escape, skip_ws, string_at, string_body, value_at, Failure,
};
use crate::layout::{
    colon, comma, escaped, escaped_chars, hex_char, line_break, quoted, rendered, rendered_items,
    rendered_member, rendered_members, Mode,
};
use crate::object::{key_lt, keys_ascend, lemma_rank_is, put};

verus! {

/// The text `t` stands in `s` at position `i`.
pub open spec fn holds(s: Seq<char>, i: int, t: Seq<char>) -> bool {
    &&& 0 <= i
    &&& i + t.len() <= s.len()
    &&& forall|k: int| 0 <= k < t.len() ==> s[i + k] == #[trigger] t[k]
}

/// Two texts stand one behind the other where their concatenation stands.
pub proof fn lemma_holds_split(s: Seq<char>, i: int, a: Seq<char>, b: Seq<char>)
    ensures
        holds(s, i, a + b) <==> holds(s, i, a) && holds(s, i + a.len(), b),
{
    if holds(s, i, a + b) {
        assert forall|k: int| 0 <= k < a.len() implies s[i + k] == #[trigger] a[k] by {
            assert((a + b)[k] == a[k]);
        }
        assert forall|k: int| 0 <= k < b.len() implies s[i + a.len() + k] == #[trigger] b[k] by {
            assert((a + b)[a.len() + k] == b[k]);
        }
    }
    if holds(s, i, a) && holds(s, i + a.len(), b) {
        assert forall|k: int| 0 <= k < (a + b).len() implies s[i + k] == #[trigger] (a + b)[k] by {
            if k < a.len() {
                assert((a + b)[k] == a[k]);
            } else {
                assert((a + b)[k] == b[k - a.len()]);
            }
        }
    }
}

/// Every text stands in itself, at the start.
pub proof fn lemma_holds_itself(s: Seq<char>)
    ensures
        holds(s, 0, s),
{
}

/// A text that stands in `s` is the part of `s` where it stands.
pub proof fn lemma_holds_subrange(s: Seq<char>, i: int, t: Seq<char>)
    requires
        holds(s, i, t),
    ensures
        s.subrange(i, i + t.len()) == t,
{
    assert(s.subrange(i, i + t.len()) =~= t);
}

/// The text is made of whitespace only.
pub open spec fn is_blank(t: Seq<char>) -> bool {
    forall|k: int| 0 <= k < t.len() ==> is_whitespace(#[trigger] t[k])
}

/// Whitespace that stands at `i` is skipped whole, when something else or
/// nothing follows it.
pub proof fn lemma_skip_blank(s: Seq<char>, i: int, blank: Seq<char>)
    requires
        holds(s, i, blank),
        is_blank(blank),
        char_at(s, i + blank.len()) matches Some(c) ==> !is_whitespace(c),
    ensures
        skip_ws(s, i) == i + blank.len(),
    decreases blank.len(),
{
    if blank.len() > 0 {
        assert(s[i + 0] == blank[0]);
        let rest = blank.drop_first();
        assert forall|k: int| 0 <= k < rest.len() implies s[i + 1 + k] == #[trigger] rest[k] by {
            assert(s[i + (k + 1)] == blank[k + 1]);
        }
        assert forall|k: int| 0 <= k < rest.len() implies is_whitespace(#[trigger] rest[k]) by {
            assert(is_whitespace(blank[k + 1]));
        }
        lemma_skip_blank(s, i + 1, rest);
    }
}

/// A literal name is read where it stands.
pub proof fn lemma_literal_read(s: Seq<char>, i: int, name: Seq<char>)
    requires
        holds(s, i, name),
    ensures
        literal_end(s, i, name) == Ok::<int, Failure>(i + name.len()),
    decreases name.len(),
{
    if name.len() > 0 {
        assert(s[i + 0] == name[0]);
        let rest = name.drop_first();
        assert forall|k: int| 0 <= k < rest.len() implies s[i + 1 + k] == #[trigger] rest[k] by {
            assert(s[i + (k + 1)] == name[k + 1]);
        }
        lemma_literal_read(s, i + 1, rest);
    }
}

/// No number goes on with this character, or the text has ended.
pub open spec fn ends_number(s: Seq<char>, i: int) -> bool {
    char_at(s, i) matches Some(c) ==> !is_digit(c) && c != '.' && c != 'e' && c != 'E'
}

/// Where a text stands in `s` and no digit follows it, its digits end in
/// `s` where they end in the text.
pub proof fn lemma_digits_end_within(s: Seq<char>, i: int, t: Seq<char>, a: int)
    requires
        holds(s, i, t),
        0 <= a <= t.len(),
        char_at(s, i + t.len()) matches Some(c) ==> !is_digit(c),
    ensures
        digits_end(s, i + a) == i + digits_end(t, a),
    decreases t.len() - a,
{
    if a < t.len() {
        assert(s[i + a] == t[a]);
        if is_digit(t[a]) {
            lemma_digits_end_within(s, i, t, a + 1);
        }
    }
}

/// A number literal is read where it stands, when nothing follows it that a
/// number could go on with.
pub proof fn lemma_number_read(s: Seq<char>, i: int, literal: Seq<char>)
    requires
        holds(s, i, literal),
        is_number_literal(literal),
        ends_number(s, i + literal.len()),
    ensures
        number_end(s, i) == Ok::<int, Failure>(i + literal.len()),
        literal.len() > 0,
        literal[0] == '-' || is_digit(literal[0]),
        s[i] == literal[0],
{
    let n = literal.len() as int;
    assert forall|k: int| 0 <= k < n implies char_at(s, i + k) == char_at(literal, k) by {
        assert(s[i + k] == literal[k]);
    }
    let start = if at(literal, 0, '-') {
        1int
    } else {
        0int
    };
    let a = integer_end(literal, start)->Ok_0;
    let b = fraction_end(literal, a)->Ok_0;
    lemma_digits_end(literal, start + 1);
    lemma_digits_end(literal, a + 1);
    lemma_digits_end(literal, b + 1);
    lemma_digits_end(literal, b + 2);
    assert(char_at(s, i + start) == char_at(literal, start));
    if start + 1 <= n {
        lemma_digits_end_within(s, i, literal, start + 1);
    }
    assert(integer_end(s, i + start) == Ok::<int, Failure>(i + a));
    if a + 1 <= n {
        lemma_digits_end_within(s, i, literal, a + 1);
    }
    assert(fraction_end(s, i + a) == Ok::<int, Failure>(i + b));
    if b + 1 <= n {
        lemma_digits_end_within(s, i, literal, b + 1);
    }
    if b + 2 <= n {
        lemma_digits_end_within(s, i, literal, b + 2);
    }
    assert(exponent_end(s, i + b) == Ok::<int, Failure>(i + n));
}

/// The characters that are written as an escape.
pub open spec fn needs_escape(c: char) -> bool {
    c == '\\' || c == '"' || (c as int) < 0x20
}

/// An escape starts with a backslash and has more behind it; any other
/// character is written as it is, and is neither a quote nor a backslash.
pub proof fn lemma_escaped_shape(c: char)
    ensures
        needs_escape(c) ==> escaped(c).len() >= 2 && escaped(c)[0] == '\\',
        !needs_escape(c) ==> escaped(c) == seq![c] && c != '"' && c != '\\',
{
}

/// A hexadecimal digit stands for the number it was written for.
pub proof fn lemma_hex_char_value(d: int)
    requires
        0 <= d < 16,
    ensures
        hex_value(hex_char(d)) == Some(d),
{
}

/// An escape is read as the code of the character it was written for.
pub proof fn lemma_escape_unit_read(s: Seq<char>, j: int, c: char)
    requires
        needs_escape(c),
        holds(s, j - 1, escaped(c)),
    ensures
        escape_unit(s, j) == Ok::<(u16, int), Failure>((unit_of(c), j - 1 + escaped(c).len())),
{
    let e = escaped(c);
    assert(s[j - 1 + 1] == e[1]);
    if c == '\\' || c == '"' || c == '\n' || c == '\r' || c == '\t' || c == '\u{C}' || c
        == '\u{8}' {
        assert(short_escape(e[1]) == Some(unit_of(c)));
    } else {
        let high = c as int / 16;
        let low = c as int % 16;
        assert(s[j - 1 + 2] == e[2]);
        assert(s[j - 1 + 3] == e[3]);
        assert(s[j - 1 + 4] == e[4]);
        assert(s[j - 1 + 5] == e[5]);
        lemma_hex_char_value(high);
        lemma_hex_char_value(low);
        reveal_with_fuel(hex_number, 5);
        assert(hex_number(s, j + 1, 4, 0) == Ok::<int, Failure>(c as int));
        assert(hex_unit(s, j + 1) == Ok::<(u16, int), Failure>((unit_of(c), j + 5)));
    }
}

/// The code of a character, as far as it fits a UTF-16 code unit.
pub open spec fn unit_of(c: char) -> u16 {
    #[verifier::truncate]
    (c as u16)
}

/// The codes of characters.
pub open spec fn units_of(chars: Seq<char>) -> Seq<u16> {
    Seq::new(chars.len(), |k: int| unit_of(chars[k]))
}

/// A character that is written as an escape is its UTF-16 code unit, and
/// no surrogate.
pub proof fn lemma_code_of_escaped(c: char)
    requires
        needs_escape(c),
    ensures
        unit_of(c) as char == c,
        unit_of(c) < 0x80,
{
}

/// The codes of characters that are written as escapes decode to these
/// characters.
pub proof fn lemma_decode_units_of(chars: Seq<char>)
    requires
        forall|k: int| 0 <= k < chars.len() ==> needs_escape(#[trigger] chars[k]),
    ensures
        decode_utf16(units_of(chars)) == Some(chars),
    decreases chars.len(),
{
    if chars.len() > 0 {
        let rest = chars.drop_first();
        assert(needs_escape(chars[0]));
        assert forall|k: int| 0 <= k < rest.len() implies needs_escape(#[trigger] rest[k]) by {
            assert(needs_escape(chars[k + 1]));
        }
        lemma_decode_units_of(rest);
        assert(units_of(chars).drop_first() =~= units_of(rest));
        assert(units_of(chars)[0] == unit_of(chars[0]));
        lemma_code_of_escaped(chars[0]);
        assert(seq![chars[0]] + rest =~= chars);
    } else {
        assert(chars =~= Seq::<char>::empty());
    }
}

/// Writing two strings one behind the other is writing their
/// concatenation.
pub proof fn lemma_escaped_concat(a: Seq<char>, b: Seq<char>)
    ensures
        escaped_chars(a + b) == escaped_chars(a) + escaped_chars(b),
    decreases a.len(),
{
    if a.len() == 0 {
        assert(a + b =~= b);
        assert(escaped_chars(a) + escaped_chars(b) =~= escaped_chars(b));
    } else {
        lemma_escaped_concat(a.drop_first(), b);
        assert((a + b).drop_first() =~= a.drop_first() + b);
        assert(escaped((a + b)[0]) + (escaped_chars(a.drop_first()) + escaped_chars(b)) =~= (
        escaped(a[0]) + escaped_chars(a.drop_first())) + escaped_chars(b));
    }
}

/// How many characters at the start of a string are written as escapes.
pub open spec fn escapes_ahead(chars: Seq<char>) -> nat
    decreases chars.len(),
{
    if chars.len() == 0 || !needs_escape(chars[0]) {
        0
    } else {
        1 + escapes_ahead(chars.drop_first())
    }
}

/// Escapes are ahead only as far as the string goes, and each of the
/// characters counted is written as an escape.
pub proof fn lemma_escapes_ahead(chars: Seq<char>)
    ensures
        escapes_ahead(chars) <= chars.len(),
        forall|k: int| 0 <= k < escapes_ahead(chars) ==> needs_escape(#[trigger] chars[k]),
    decreases chars.len(),
{
    if chars.len() > 0 && needs_escape(chars[0]) {
        let rest = chars.drop_first();
        lemma_escapes_ahead(rest);
        assert forall|k: int| 0 <= k < escapes_ahead(chars) implies needs_escape(
            #[trigger] chars[k],
        ) by {
            if k > 0 {
                assert(needs_escape(rest[k - 1]));
            }
        }
    }
}

/// The escapes that stand at the start of a written string are read
/// together, as the codes of the characters they were written for.
pub proof fn lemma_escape_units_read(s: Seq<char>, j: int, chars: Seq<char>, run: Seq<u16>)
    requires
        chars.len() > 0,
        needs_escape(chars[0]),
        holds(s, j - 1, escaped_chars(chars) + seq!['"']),
    ensures
        escape_units(s, j, run) == Ok::<(Seq<u16>, int), Failure>(
            (
                run + units_of(chars.take(escapes_ahead(chars) as int)),
                j - 1 + escaped_chars(chars.take(escapes_ahead(chars) as int)).len(),
            ),
        ),
    decreases chars.len(),
{
    let c = chars[0];
    let rest = chars.drop_first();
    let m = escapes_ahead(chars) as int;
    let block = chars.take(m);
    lemma_escapes_ahead(chars);
    lemma_escapes_ahead(rest);
    lemma_escaped_shape(c);
    assert(escaped_chars(chars) + seq!['"'] =~= escaped(c) + (escaped_chars(rest) + seq!['"']));
    lemma_holds_split(s, j - 1, escaped(c), escaped_chars(rest) + seq!['"']);
    lemma_escape_unit_read(s, j, c);
    let next = j - 1 + escaped(c).len();
    let tail = escaped_chars(rest) + seq!['"'];
    assert(s[next + 0] == tail[0]);
    assert(block.drop_first() =~= rest.take(m - 1));
    assert(block[0] == c);
    assert(units_of(block) =~= seq![unit_of(c)] + units_of(rest.take(m - 1)));
    if rest.len() > 0 && needs_escape(rest[0]) {
        lemma_escaped_shape(rest[0]);
        assert(tail[0] == '\\');
        lemma_escape_units_read(s, next + 1, rest, run.push(unit_of(c)));
        assert(run.push(unit_of(c)) + units_of(rest.take(m - 1)) =~= run + units_of(block));
    } else {
        if rest.len() > 0 {
            lemma_escaped_shape(rest[0]);
            assert(tail[0] == rest[0]);
        }
        assert(m == 1);
        assert(rest.take(0) =~= Seq::<char>::empty());
        assert(escaped_chars(block.drop_first()) =~= Seq::<char>::empty());
        assert(escaped_chars(block) =~= escaped(c));
        assert(run.push(unit_of(c)) =~= run + units_of(block));
    }
}

/// The characters of a string are read back from where they were written,
/// up to the closing quote.
pub proof fn lemma_string_body_read(s: Seq<char>, j: int, chars: Seq<char>, done: Seq<char>)
    requires
        holds(s, j, escaped_chars(chars) + seq!['"']),
    ensures
        string_body(s, j, done) == Ok::<(Seq<char>, int), Failure>(
            (done + chars, j + escaped_chars(chars).len() + 1),
        ),
    decreases chars.len(),
{
    let text = escaped_chars(chars) + seq!['"'];
    assert(s[j + 0] == text[0]);
    if chars.len() == 0 {
        assert(done + chars =~= done);
    } else {
        let c = chars[0];
        let rest = chars.drop_first();
        lemma_escaped_shape(c);
        if needs_escape(c) {
            let m = escapes_ahead(chars) as int;
            let block = chars.take(m);
            let after = chars.skip(m);
            lemma_escapes_ahead(chars);
            lemma_escape_units_read(s, j + 1, chars, Seq::empty());
            assert(Seq::<u16>::empty() + units_of(block) =~= units_of(block));
            lemma_decode_units_of(block);
            assert(escape_run(s, j + 1) == Ok::<(Seq<char>, int), Failure>(
                (block, j + escaped_chars(block).len()),
            ));
            assert(chars =~= block + after);
            lemma_escaped_concat(block, after);
            assert(text =~= escaped_chars(block) + (escaped_chars(after) + seq!['"']));
            lemma_holds_split(s, j, escaped_chars(block), escaped_chars(after) + seq!['"']);
            lemma_string_body_read(s, j + escaped_chars(block).len(), after, done + block);
            assert(done + block + after =~= done + chars);
        } else {
            assert(text =~= seq![c] + (escaped_chars(rest) + seq!['"']));
            lemma_holds_split(s, j, seq![c], escaped_chars(rest) + seq!['"']);
            lemma_string_body_read(s, j + 1, rest, done.push(c));
            assert(done.push(c) + rest =~= done + chars);
        }
    }
}

/// A string is read back from where it was written.
pub proof fn lemma_string_read(s: Seq<char>, i: int, chars: Seq<char>)
    requires
        holds(s, i, quoted(chars)),
    ensures
        string_at(s, i) == Ok::<(Seq<char>, int), Failure>((chars, i + quoted(chars).len())),
{
    assert(quoted(chars) =~= seq!['"'] + (escaped_chars(chars) + seq!['"']));
    lemma_holds_split(s, i, seq!['"'], escaped_chars(chars) + seq!['"']);
    assert(s[i + 0] == seq!['"'][0]);
    lemma_string_body_read(s, i + 1, chars, Seq::empty());
    assert(Seq::<char>::empty() + chars =~= chars);
}

/// The characters that a value can start with.
pub open spec fn starts_value(c: char) -> bool {
    c == 'n' || c == 't' || c == 'f' || c == '"' || c == '[' || c == '{' || c == '-' || is_digit(c)
}

/// The text of a value is not empty and starts as a value does.
pub proof fn lemma_rendered_start(v: JsonValue, mode: Mode, level: nat)
    requires
        v.wf(),
    ensures
        rendered(v, mode, level).len() > 0,
        starts_value(rendered(v, mode, level)[0]),
{
    match v {
        JsonValue::Number(literal) => {
            lemma_holds_itself(literal);
            lemma_number_read(literal, 0, literal);
        },
        _ => {},
    }
}

/// What stands before a line is whitespace.
pub proof fn lemma_line_break_blank(mode: Mode, level: nat)
    ensures
        is_blank(line_break(mode, level)),
{
}

/// What stands between a key and its value is a colon and whitespace.
pub proof fn lemma_colon_shape(mode: Mode)
    ensures
        colon(mode).len() > 0,
        colon(mode)[0] == ':',
        is_blank(colon(mode).drop_first()),
        colon(mode) == seq![':'] + colon(mode).drop_first(),
{
    assert(colon(mode) =~= seq![':'] + colon(mode).drop_first());
}

/// The first items of an array are written where all of them are.
pub proof fn lemma_items_hold(
    s: Seq<char>,
    base: int,
    items: Seq<JsonValue>,
    mode: Mode,
    level: nat,
    n: nat,
    k: nat,
)
    requires
        k <= n <= items.len(),
        holds(s, base, rendered_items(items, mode, level, n)),
    ensures
        holds(s, base, rendered_items(items, mode, level, k)),
    decreases n - k,
{
    if k < n {
        let front = rendered_items(items, mode, level, (n - 1) as nat);
        let last = comma(n) + line_break(mode, level) + rendered(items[n - 1], mode, level);
        assert(rendered_items(items, mode, level, n) =~= front + last);
        lemma_holds_split(s, base, front, last);
        lemma_items_hold(s, base, items, mode, level, (n - 1) as nat, k);
    }
}

/// The first members of an object are written where all of them are.
pub proof fn lemma_members_hold(
    s: Seq<char>,
    base: int,
    members: Seq<(Seq<char>, JsonValue)>,
    mode: Mode,
    level: nat,
    n: nat,
    k: nat,
)
    requires
        k <= n <= members.len(),
        holds(s, base, rendered_members(members, mode, level, n)),
    ensures
        holds(s, base, rendered_members(members, mode, level, k)),
    decreases n - k,
{
    if k < n {
        let front = rendered_members(members, mode, level, (n - 1) as nat);
        let last = comma(n) + line_break(mode, level) + rendered_member(
            members[n - 1],
            mode,
            level,
        );
        assert(rendered_members(members, mode, level, n) =~= front + last);
        lemma_holds_split(s, base, front, last);
        lemma_members_hold(s, base, members, mode, level, (n - 1) as nat, k);
    }
}

/// Where one of several lines stands, and what follows it. The lines stand
/// at `base`, one behind the other with commas between them, and `close`
/// follows the last: `before` is the text of the lines before this one,
/// `line` this one, `through` the text up to and with this one, `all` the
/// text of all lines.
pub open spec fn line_stands(
    s: Seq<char>,
    base: int,
    before: Seq<char>,
    line: Seq<char>,
    through: Seq<char>,
    all: Seq<char>,
    close: Seq<char>,
    k: nat,
    n: nat,
) -> bool {
    let from = base + before.len() + comma(k + 1).len();
    let end = from + line.len();
    &&& holds(s, from, line)
    &&& end == base + through.len()
    &&& if k + 1 < n {
        char_at(s, end) == Some(',')
    } else {
        holds(s, end, close) && through == all
    }
}

/// Where the `k`th item of an array stands, and what follows it.
pub proof fn lemma_item_stands(
    s: Seq<char>,
    base: int,
    items: Seq<JsonValue>,
    mode: Mode,
    level: nat,
    close: Seq<char>,
    k: nat,
)
    requires
        k < items.len(),
        holds(s, base, rendered_items(items, mode, level, items.len()) + close),
    ensures
        line_stands(
            s,
            base,
            rendered_items(items, mode, level, k),
            line_break(mode, level) + rendered(items[k as int], mode, level),
            rendered_items(items, mode, level, k + 1),
            rendered_items(items, mode, level, items.len()),
            close,
            k,
            items.len(),
        ),
{
    let n = items.len();
    let all = rendered_items(items, mode, level, n);
    let before = rendered_items(items, mode, level, k);
    let through = rendered_items(items, mode, level, k + 1);
    let line = line_break(mode, level) + rendered(items[k as int], mode, level);
    lemma_holds_split(s, base, all, close);
    lemma_items_hold(s, base, items, mode, level, n, k + 1);
    assert(through =~= (before + comma(k + 1)) + line);
    lemma_holds_split(s, base, before + comma(k + 1), line);
    if k + 1 < n {
        lemma_items_hold(s, base, items, mode, level, n, k + 2);
        let more = line_break(mode, level) + rendered(items[k as int + 1], mode, level);
        assert(rendered_items(items, mode, level, k + 2) =~= through + (seq![','] + more));
        lemma_holds_split(s, base, through, seq![','] + more);
        assert(s[base + through.len() + 0] == (seq![','] + more)[0]);
    }
}

/// Where the `k`th member of an object stands, and what follows it.
pub proof fn lemma_member_stands(
    s: Seq<char>,
    base: int,
    members: Seq<(Seq<char>, JsonValue)>,
    mode: Mode,
    level: nat,
    close: Seq<char>,
    k: nat,
)
    requires
        k < members.len(),
        holds(s, base, rendered_members(members, mode, level, members.len()) + close),
    ensures
        line_stands(
            s,
            base,
            rendered_members(members, mode, level, k),
            line_break(mode, level) + rendered_member(members[k as int], mode, level),
            rendered_members(members, mode, level, k + 1),
            rendered_members(members, mode, level, members.len()),
            close,
            k,
            members.len(),
        ),
{
    let n = members.len();
    let all = rendered_members(members, mode, level, n);
    let before = rendered_members(members, mode, level, k);
    let through = rendered_members(members, mode, level, k + 1);
    let line = line_break(mode, level) + rendered_member(members[k as int], mode, level);
    lemma_holds_split(s, base, all, close);
    lemma_members_hold(s, base, members, mode, level, n, k + 1);
    assert(through =~= (before + comma(k + 1)) + line);
    lemma_holds_split(s, base, before + comma(k + 1), line);
    if k + 1 < n {
        lemma_members_hold(s, base, members, mode, level, n, k + 2);
        let more = line_break(mode, level) + rendered_member(members[k as int + 1], mode, level);
        assert(rendered_members(members, mode, level, k + 2) =~= through + (seq![','] + more));
        lemma_holds_split(s, base, through, seq![','] + more);
        assert(s[base + through.len() + 0] == (seq![','] + more)[0]);
    }
}

/// Whitespace and a closing bracket are read where they stand.
pub proof fn lemma_close_read(s: Seq<char>, i: int, blank: Seq<char>, bracket: char)
    requires
        holds(s, i, blank + seq![bracket]),
        is_blank(blank),
        bracket == ']' || bracket == '}',
    ensures
        skip_ws(s, i) == i + blank.len(),
        char_at(s, i + blank.len()) == Some(bracket),
        ends_number(s, i),
{
    lemma_holds_split(s, i, blank, seq![bracket]);
    assert(s[i + blank.len() + 0] == seq![bracket][0]);
    lemma_skip_blank(s, i, blank);
    if blank.len() > 0 {
        assert(s[i + 0] == blank[0]);
        assert(is_whitespace(blank[0]));
    }
}

/// A value is read back from where it was written, when nothing follows it
/// that a number could go on with.
pub proof fn lemma_bare_value_read(
    s: Seq<char>,
    i: int,
    v: JsonValue,
    mode: Mode,
    level: nat,
    room: nat,
)
    requires
        v.wf(),
        v.fits(room),
        holds(s, i, rendered(v, mode, level)),
        ends_number(s, i + rendered(v, mode, level).len()),
    ensures
        bare_value_at(s, i, room) == Ok::<(JsonValue, int), Failure>(
            (v, i + rendered(v, mode, level).len()),
        ),
    decreases v, 0nat, 0nat,
{
    let text = rendered(v, mode, level);
    lemma_rendered_start(v, mode, level);
    assert(s[i + 0] == text[0]);
    match v {
        JsonValue::Null => {
            lemma_literal_read(s, i, text);
        },
        JsonValue::Boolean(b) => {
            lemma_literal_read(s, i, text);
        },
        JsonValue::Number(literal) => {
            lemma_number_read(s, i, literal);
            lemma_holds_subrange(s, i, literal);
        },
        JsonValue::String(chars) => {
            lemma_string_read(s, i, chars);
        },
        JsonValue::Array(items) => {
            if items.len() == 0 {
                assert(s[i + 1] == text[1]);
                assert(items =~= Seq::<JsonValue>::empty());
            } else {
                lemma_array_read(s, i, items, mode, level, room);
            }
        },
        JsonValue::Object(members) => {
            if members.len() == 0 {
                assert(s[i + 1] == text[1]);
                assert(members =~= Seq::<(Seq<char>, JsonValue)>::empty());
            } else {
                lemma_object_read(s, i, members, mode, level, room);
            }
        },
    }
}

/// An array with items is read back from where it was written.
pub proof fn lemma_array_read(
    s: Seq<char>,
    i: int,
    items: Seq<JsonValue>,
    mode: Mode,
    level: nat,
    room: nat,
)
    requires
        items.len() > 0,
        JsonValue::Array(items).wf(),
        JsonValue::Array(items).fits(room),
        holds(s, i, rendered(JsonValue::Array(items), mode, level)),
    ensures
        array_at(s, i, room) == Ok::<(JsonValue, int), Failure>(
            (JsonValue::Array(items), i + rendered(JsonValue::Array(items), mode, level).len()),
        ),
    decreases items, items.len() + 1, 0nat,
{
    let text = rendered(JsonValue::Array(items), mode, level);
    let inner = rendered_items(items, mode, level + 1, items.len());
    let close = line_break(mode, level) + seq![']'];
    let open = line_break(mode, level + 1);
    let first = rendered(items[0], mode, level + 1);
    assert(text =~= seq!['['] + (inner + close));
    lemma_holds_split(s, i, seq!['['], inner + close);
    assert(s[i + 0] == seq!['['][0]);
    // the first item stands behind the whitespace that opens its line
    lemma_item_stands(s, i + 1, items, mode, level + 1, close, 0);
    lemma_holds_split(s, i + 1, open, first);
    lemma_line_break_blank(mode, level + 1);
    assert(items[0].wf());
    lemma_rendered_start(items[0], mode, level + 1);
    assert(s[i + 1 + open.len() + 0] == first[0]);
    lemma_skip_blank(s, i + 1, open);
    // the items
    assert forall|x: int| 0 <= x < items.len() implies (#[trigger] items[x]).fits(
        (room - 1) as nat,
    ) by {}
    lemma_line_break_blank(mode, level);
    lemma_items_read(
        s,
        i + 1,
        items,
        mode,
        level + 1,
        line_break(mode, level),
        0,
        (room - 1) as nat,
    );
    assert(items.take(0) =~= Seq::<JsonValue>::empty());
}

/// An object with members is read back from where it was written.
pub proof fn lemma_object_read(
    s: Seq<char>,
    i: int,
    members: Seq<(Seq<char>, JsonValue)>,
    mode: Mode,
    level: nat,
    room: nat,
)
    requires
        members.len() > 0,
        JsonValue::Object(members).wf(),
        JsonValue::Object(members).fits(room),
        holds(s, i, rendered(JsonValue::Object(members), mode, level)),
    ensures
        object_at(s, i, room) == Ok::<(JsonValue, int), Failure>(
            (
                JsonValue::Object(members),
                i + rendered(JsonValue::Object(members), mode, level).len(),
            ),
        ),
    decreases members, members.len() + 1, 0nat,
{
    let text = rendered(JsonValue::Object(members), mode, level);
    let inner = rendered_members(members, mode, level + 1, members.len());
    let close = line_break(mode, level) + seq!['}'];
    let open = line_break(mode, level + 1);
    let first = rendered_member(members[0], mode, level + 1);
    assert(text =~= seq!['{'] + (inner + close));
    lemma_holds_split(s, i, seq!['{'], inner + close);
    assert(s[i + 0] == seq!['{'][0]);
    // the first key stands behind the whitespace that opens its line
    lemma_member_stands(s, i + 1, members, mode, level + 1, close, 0);
    lemma_holds_split(s, i + 1, open, first);
    lemma_line_break_blank(mode, level + 1);
    assert(first[0] == '"');
    assert(s[i + 1 + open.len() + 0] == first[0]);
    lemma_skip_blank(s, i + 1, open);
    // the members
    assert forall|x: int| 0 <= x < members.len() implies (#[trigger] members[x]).1.fits(
        (room - 1) as nat,
    ) by {}
    lemma_line_break_blank(mode, level);
    lemma_members_read(
        s,
        i + 1,
        members,
        mode,
        level + 1,
        line_break(mode, level),
        0,
        (room - 1) as nat,
    );
    assert(members.take(0) =~= Seq::<(Seq<char>, JsonValue)>::empty());
}

/// A value is read back from where it was written behind whitespace, with
/// the whitespace that follows it.
pub proof fn lemma_value_read(
    s: Seq<char>,
    i: int,
    blank: Seq<char>,
    v: JsonValue,
    mode: Mode,
    level: nat,
    room: nat,
)
    requires
        v.wf(),
        v.fits(room),
        is_blank(blank),
        holds(s, i, blank + rendered(v, mode, level)),
        ends_number(s, i + blank.len() + rendered(v, mode, level).len()),
    ensures
        value_at(s, i, room) == Ok::<(JsonValue, int), Failure>(
            (v, skip_ws(s, i + blank.len() + rendered(v, mode, level).len())),
        ),
    decreases v, 0nat, 1nat,
{
    let text = rendered(v, mode, level);
    lemma_holds_split(s, i, blank, text);
    lemma_rendered_start(v, mode, level);
    assert(s[i + blank.len() + 0] == text[0]);
    lemma_skip_blank(s, i, blank);
    lemma_value_skips(s, i, room);
    lemma_bare_value_read(s, i + blank.len(), v, mode, level, room);
}

/// The items of an array are read back from where they were written, from
/// the `k`th on behind those before it.
pub proof fn lemma_items_read(
    s: Seq<char>,
    base: int,
    items: Seq<JsonValue>,
    mode: Mode,
    level: nat,
    close: Seq<char>,
    k: nat,
    room: nat,
)
    requires
        k < items.len(),
        forall|x: int| 0 <= x < items.len() ==> (#[trigger] items[x]).wf(),
        forall|x: int| 0 <= x < items.len() ==> (#[trigger] items[x]).fits(room),
        is_blank(close),
        holds(
            s,
            base,
            rendered_items(items, mode, level, items.len()) + (close + seq![']']),
        ),
    ensures
        items_at(
            s,
            base + rendered_items(items, mode, level, k).len() + comma(k + 1).len(),
            room,
            items.take(k as int),
        ) == Ok::<(Seq<JsonValue>, int), Failure>(
            (items, base + rendered_items(items, mode, level, items.len()).len() + close.len() + 1),
        ),
    decreases items, items.len() - k, 0nat,
{
    let item = items[k as int];
    let open = line_break(mode, level);
    let text = rendered(item, mode, level);
    let from = base + rendered_items(items, mode, level, k).len() + comma(k + 1).len();
    let end = from + open.len() + text.len();
    lemma_item_stands(s, base, items, mode, level, close + seq![']'], k);
    lemma_line_break_blank(mode, level);
    assert(item.wf() && item.fits(room));
    if k + 1 < items.len() {
        lemma_value_read(s, from, open, item, mode, level, room);
        assert(items.take(k as int).push(item) =~= items.take(k as int + 1));
        lemma_items_read(s, base, items, mode, level, close, k + 1, room);
    } else {
        lemma_close_read(s, end, close, ']');
        lemma_value_read(s, from, open, item, mode, level, room);
        assert(items.take(k as int).push(item) =~= items);
    }
}

/// A member is read back from where it was written, with the whitespace
/// that follows it.
pub proof fn lemma_member_read(
    s: Seq<char>,
    i: int,
    key: Seq<char>,
    value: JsonValue,
    mode: Mode,
    level: nat,
    room: nat,
)
    requires
        value.wf(),
        value.fits(room),
        holds(s, i, rendered_member((key, value), mode, level)),
        ends_number(s, i + rendered_member((key, value), mode, level).len()),
    ensures
        member_at(s, i, room) == Ok::<((Seq<char>, JsonValue), int), Failure>(
            ((key, value), skip_ws(s, i + rendered_member((key, value), mode, level).len())),
        ),
    decreases value, 0nat, 2nat,
{
    let name = quoted(key);
    let gap = colon(mode).drop_first();
    let text = rendered(value, mode, level);
    lemma_colon_shape(mode);
    assert(name + colon(mode) + text =~= name + (seq![':'] + (gap + text)));
    lemma_holds_split(s, i, name, seq![':'] + (gap + text));
    lemma_holds_split(s, i + name.len(), seq![':'], gap + text);
    lemma_string_read(s, i, key);
    assert(s[i + name.len() + 0] == seq![':'][0]);
    assert(colon_end(s, i + name.len()) == Ok::<int, Failure>(i + name.len() + 1));
    lemma_value_read(s, i + name.len() + 1, gap, value, mode, level, room);
}

/// The members of an object are read back from where they were written,
/// from the `k`th on behind those before it.
pub proof fn lemma_members_read(
    s: Seq<char>,
    base: int,
    members: Seq<(Seq<char>, JsonValue)>,
    mode: Mode,
    level: nat,
    close: Seq<char>,
    k: nat,
    room: nat,
)
    requires
        k < members.len(),
        keys_ascend(members),
        forall|x: int| 0 <= x < members.len() ==> (#[trigger] members[x]).1.wf(),
        forall|x: int| 0 <= x < members.len() ==> (#[trigger] members[x]).1.fits(room),
        is_blank(close),
        holds(
            s,
            base,
            rendered_members(members, mode, level, members.len()) + (close + seq!['}']),
        ),
    ensures
        members_at(
            s,
            base + rendered_members(members, mode, level, k).len() + comma(k + 1).len(),
            room,
            members.take(k as int),
        ) == Ok::<(Seq<(Seq<char>, JsonValue)>, int), Failure>(
            (
                members,
                base + rendered_members(members, mode, level, members.len()).len() + close.len()
                    + 1,
            ),
        ),
    decreases members, members.len() - k, 0nat,
{
    let key = members[k as int].0;
    let value = members[k as int].1;
    let open = line_break(mode, level);
    let member = rendered_member(members[k as int], mode, level);
    let from = base + rendered_members(members, mode, level, k).len() + comma(k + 1).len();
    let key_at = from + open.len();
    let end = key_at + member.len();
    let done = members.take(k as int);
    lemma_member_stands(s, base, members, mode, level, close + seq!['}'], k);
    lemma_holds_split(s, from, open, member);
    lemma_line_break_blank(mode, level);
    assert(value.wf() && value.fits(room));
    assert(members[k as int] == (key, value));
    // the key stands behind the whitespace that opens its line
    assert(member[0] == '"');
    assert(s[key_at + 0] == member[0]);
    lemma_skip_blank(s, from, open);
    lemma_members_skip(s, from, room, done);
    // the key is new, and comes behind the keys before it
    assert forall|x: int| 0 <= x < done.len() implies key_lt(#[trigger] done[x].0, key) by {
        assert(key_lt(members[x].0, members[k as int].0));
    }
    lemma_rank_is(done, key, k as int);
    assert(put(done, key, value) =~= members.take(k as int + 1));
    if k + 1 < members.len() {
        lemma_member_read(s, key_at, key, value, mode, level, room);
        lemma_members_read(s, base, members, mode, level, close, k + 1, room);
    } else {
        lemma_close_read(s, end, close, '}');
        lemma_member_read(s, key_at, key, value, mode, level, room);
        assert(members.take(k as int + 1) =~= members);
    }
}

} // verus!
