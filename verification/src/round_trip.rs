//! What is printed is read back, for values that are made of phrases alone: integers,
//! truth values, floating-point numbers and plain text of words parted by blanks, the
//! sequences and mappings that hold them, and tagged values among them.
//!
//! `plain_round_trip` states the law. `is_value` says which values it is about and
//! `height` how much nesting reading them costs. The proof follows the text that the
//! printer gives for such a value line by line: each lemma says what one reader makes
//! of one piece of that text, wherever in the input the piece stands.
use crate::bytes::{
    is_digit, is_indicator, is_linebreak, is_ns_plain_safe, is_tag_char, is_ws, COLON, DASH,
    DIGIT_0, HASH,
};
use crate::context::{closes, in_flow, ParseContext, ParseContextKind};
use crate::cursor::{comment_end, newlines_end, text_between, ws_end, Cursor, Parsed};
use crate::decimal::{decimal, digit_char, signed_decimal};
use crate::document;
use crate::grammar::{
    block_entries, block_entry, block_item, block_items, block_sequence, flow_entries,
    flow_entry, flow_mapping, mapping_block, mapping_maybe, maybe_scalar, tagged, value, Step,
};
use crate::tag::{ends_input, tag, tag_scan, tag_wrapped};
use crate::block::{repeated, repeated_len};
use crate::print::{
    after_colon, block, count, entries_from, entry_text, further, holds_value, is_scalar_node,
    item_text, items_from, leaf, tag_name,
};
use crate::value::Pair;
use crate::scalar::{all_digits, bool_value, digits_value, inferred, int_value};
use crate::scan::{plain_rest, plain_scalar, scalar, scan_from, Scan, ScanKind, Scanned};
use crate::errors::Failure;
use crate::value::Node;
use vstd::prelude::*;
use vstd::string::*;
use vstd::utf8::*;

verus! {

/// The bytes of a text of ASCII characters, one for each character.
pub open spec fn ascii_bytes(text: Seq<char>) -> Seq<u8> {
    Seq::new(text.len(), |i: int| text[i] as u8)
}

/// A decimal digit is written as one ASCII character, the digit `0` and those behind
/// it in their order.
proof fn digit_char_is(d: nat)
    requires
        d < 10,
    ensures
        digit_char(d).len() == 1,
        digit_char(d)[0] as u8 == DIGIT_0 + d,
        is_ascii_chars(digit_char(d)),
{
    reveal_strlit("0");
    reveal_strlit("1");
    reveal_strlit("2");
    reveal_strlit("3");
    reveal_strlit("4");
    reveal_strlit("5");
    reveal_strlit("6");
    reveal_strlit("7");
    reveal_strlit("8");
    reveal_strlit("9");
}

/// A number in decimal is made of ASCII digits, at least one, and they write the
/// number.
proof fn decimal_is_digits(n: nat)
    ensures
        is_ascii_chars(decimal(n)),
        decimal(n).len() >= 1,
        all_digits(ascii_bytes(decimal(n))),
        digits_value(ascii_bytes(decimal(n))) == n,
    decreases n,
{
    let text = decimal(n);
    let bytes = ascii_bytes(text);
    if n < 10 {
        digit_char_is(n);
        assert(bytes.drop_last() =~= Seq::<u8>::empty());
        assert(digits_value(bytes.drop_last()) == 0);
        assert(bytes.last() == DIGIT_0 + n);
    } else {
        decimal_is_digits(n / 10);
        digit_char_is(n % 10);
        let head = decimal(n / 10);
        let last = digit_char(n % 10);
        assert(text == head + last);
        assert forall|i: int| 0 <= i < text.len() implies '\0' <= #[trigger] text[i]
            <= '\u{7f}' by {
            if i < head.len() {
                assert(text[i] == head[i]);
            } else {
                assert(text[i] == last[i - head.len()]);
            }
        }
        assert(bytes.drop_last() =~= ascii_bytes(head));
        assert(bytes.last() == DIGIT_0 + n % 10);
        assert forall|i: int| 0 <= i < bytes.len() implies is_digit(#[trigger] bytes[i]) by {
            if i < head.len() {
                assert(bytes[i] == ascii_bytes(head)[i]);
            }
        }
    }
}

/// An integer in decimal is read as that integer and spells no truth value.
proof fn signed_decimal_is_int(i: int)
    requires
        i64::MIN <= i <= i64::MAX,
    ensures
        is_ascii_chars(signed_decimal(i)),
        encode_utf8(signed_decimal(i)) == ascii_bytes(signed_decimal(i)),
        encode_utf8(signed_decimal(i)).len() >= 1,
        forall|k: int|
            0 <= k < encode_utf8(signed_decimal(i)).len() ==> {
                let b = #[trigger] encode_utf8(signed_decimal(i))[k];
                is_digit(b) || (b == DASH && k == 0 && encode_utf8(signed_decimal(i)).len() > 1)
            },
        is_digit(encode_utf8(signed_decimal(i)).last()),
        int_value(encode_utf8(signed_decimal(i))) == Some(i),
        bool_value(encode_utf8(signed_decimal(i))) is None,
{
    let text = signed_decimal(i);
    let magnitude: nat = if i < 0 {
        (-i) as nat
    } else {
        i as nat
    };
    decimal_is_digits(magnitude);
    let digits = ascii_bytes(decimal(magnitude));
    reveal_strlit("-");
    assert forall|k: int| 0 <= k < text.len() implies '\0' <= #[trigger] text[k] <= '\u{7f}' by {
        if i < 0 && k > 0 {
            assert(text[k] == decimal(magnitude)[k - 1]);
        }
    }
    is_ascii_chars_encode_utf8(text);
    let bytes = encode_utf8(text);
    assert(bytes =~= ascii_bytes(text));
    if i < 0 {
        assert(bytes[0] == DASH);
        assert(bytes.subrange(1, bytes.len() as int) =~= digits);
        assert forall|k: int| 0 <= k < bytes.len() implies {
            let b = #[trigger] bytes[k];
            is_digit(b) || (b == DASH && k == 0 && bytes.len() > 1)
        } by {
            if k > 0 {
                assert(bytes[k] == digits[k - 1]);
            }
        }
        assert(bytes.last() == digits.last());
    } else {
        assert(bytes =~= digits);
        assert(is_digit(bytes[0]));
    }
    assert(is_digit(digits.last()));
    no_word_begins_so(bytes);
}

/// A text that begins with a digit or with `-` spells no truth value.
proof fn no_word_begins_so(bytes: Seq<u8>)
    requires
        bytes.len() >= 1,
        is_digit(bytes[0]) || bytes[0] == DASH,
    ensures
        bool_value(bytes) is None,
{
    reveal_strlit("true");
    reveal_strlit("yes");
    reveal_strlit("on");
    reveal_strlit("false");
    reveal_strlit("no");
    reveal_strlit("off");
    is_ascii_chars_encode_utf8("true"@);
    is_ascii_chars_encode_utf8("yes"@);
    is_ascii_chars_encode_utf8("on"@);
    is_ascii_chars_encode_utf8("false"@);
    is_ascii_chars_encode_utf8("no"@);
    is_ascii_chars_encode_utf8("off"@);
    assert("true".spec_bytes()[0] == 116);
    assert("yes".spec_bytes()[0] == 121);
    assert("on".spec_bytes()[0] == 111);
    assert("false".spec_bytes()[0] == 102);
    assert("no".spec_bytes()[0] == 110);
    assert("off".spec_bytes()[0] == 111);
}

/// `text`, a text of ASCII characters, stands in `bytes` from offset `p` on.
pub open spec fn at_text(bytes: Seq<u8>, p: int, text: Seq<char>) -> bool {
    &&& 0 <= p
    &&& p + text.len() <= bytes.len()
    &&& forall|i: int| 0 <= i < text.len() ==> bytes[p + i] == #[trigger] text[i] as u8
}

/// A byte of a word: a visible ASCII character that is no colon, no `#`, no square
/// bracket and no parenthesis.
pub open spec fn is_word_byte(b: u8) -> bool {
    33 <= b <= 126 && b != COLON && b != HASH && b != 91 && b != 93 && b != 40 && b != 41
}

/// A byte with which a line can begin that is read: no blank, no line break, no `#`.
pub open spec fn begins_line(b: u8) -> bool {
    !is_ws(b) && !is_linebreak(b) && b != HASH
}

/// Words parted by blanks: a text of bytes of phrases and blanks that begins and ends
/// with a byte of a word, where a colon may stand among them before a byte that is no
/// blank. Its first byte is none that the grammar reserves, or it is `-` before a
/// byte of a phrase that is no `-`.
pub open spec fn is_phrase(text: Seq<char>) -> bool {
    &&& is_ascii_chars(text)
    &&& text.len() >= 1
    &&& forall|k: int|
        0 <= k < text.len() ==> is_word_byte(#[trigger] text[k] as u8) || text[k] as u8 == 32
            || (text[k] as u8 == COLON && k + 1 < text.len() && text[k + 1] as u8 != 32)
    &&& is_word_byte(text[0] as u8)
    &&& is_word_byte(text[text.len() - 1] as u8)
    &&& !is_indicator(text[0] as u8) || (text[0] as u8 == DASH && text.len() >= 2
        && is_word_byte(text[1] as u8) && text[1] as u8 != DASH)
}

/// The byte at `q` ends a phrase that stands before it: it is a line break, or a
/// colon that a blank or a line break follows.
pub open spec fn ends_phrase(bytes: Seq<u8>, q: int) -> bool {
    &&& 0 <= q < bytes.len()
    &&& is_linebreak(bytes[q]) || (bytes[q] == COLON && q + 1 < bytes.len() && (is_ws(
        bytes[q + 1],
    ) || is_linebreak(bytes[q + 1])))
}

/// The bytes from `i` up to `q` are bytes of phrases, blanks, and colons before a byte
/// of them that is no blank.
pub open spec fn phrase_bytes(bytes: Seq<u8>, i: int, q: int) -> bool {
    forall|k: int|
        i <= k < q ==> is_word_byte(#[trigger] bytes[k]) || bytes[k] == 32 || (bytes[k] == COLON
            && k + 1 < q && bytes[k + 1] != 32)
}

/// Where the word that runs over byte `i` ends: at the first blank from `i` on, or at
/// `q`.
pub open spec fn run_end(bytes: Seq<u8>, i: int, q: int) -> int
    decreases q - i,
{
    if 0 <= i < q && i < bytes.len() && bytes[i] != 32 {
        run_end(bytes, i + 1, q)
    } else {
        i
    }
}

/// Where a cursor stands that has read up to offset `q`: on the byte there, or on the
/// last byte of the input.
pub open spec fn stop_at(bytes: Seq<u8>, q: int) -> int {
    if q < bytes.len() {
        q
    } else {
        bytes.len() - 1
    }
}

/// A run of blanks ends no later than the next byte that is no blank.
proof fn blanks_stop(bytes: Seq<u8>, j: int, k: int)
    requires
        0 <= j <= k < bytes.len(),
        !is_ws(bytes[k]),
    ensures
        j <= ws_end(bytes, j) <= k,
    decreases k - j,
{
    if j < k && is_ws(bytes[j]) {
        blanks_stop(bytes, j + 1, k);
    }
}

/// A scan for a plain scalar outside flow collections takes the bytes of a phrase up to
/// the blank behind it, or up to the byte that ends the phrase, or up to the end of
/// the input.
proof fn scan_takes_word(bytes: Seq<u8>, i: int, q: int, scan: Scan)
    requires
        0 <= i <= q <= bytes.len(),
        scan.kind == ScanKind::Plain,
        scan.bracket_depth == 0,
        scan.paren_depth == 0,
        !in_flow(scan.context),
        phrase_bytes(bytes, i, q),
        q == bytes.len() || ends_phrase(bytes, q),
    ensures
        i <= run_end(bytes, i, q) <= q,
        run_end(bytes, i, q) < q ==> bytes[run_end(bytes, i, q)] == 32,
        i < q && bytes[i] != 32 ==> i < run_end(bytes, i, q),
        scan_from(bytes, i, scan) == (Scanned {
            end: run_end(bytes, i, q),
            scan,
            stopped: run_end(bytes, i, q) < bytes.len(),
        }),
    decreases q - i,
{
    if i < q && bytes[i] != 32 {
        assert(is_word_byte(bytes[i]) || (bytes[i] == COLON && i + 1 < q && bytes[i + 1] != 32));
        if bytes[i] == COLON {
            assert(is_word_byte(bytes[i + 1]) || bytes[i + 1] == COLON);
        }
        assert(scan.after(bytes[i]) == scan);
        scan_takes_word(bytes, i + 1, q, scan);
    } else if i < bytes.len() {
        assert(scan.after(bytes[i]) == scan);
    }
}

/// Behind a phrase of a phrase, a plain scalar goes on over blanks and further words up
/// to the end of the phrase.
proof fn phrase_goes_on(bytes: Seq<u8>, c: Cursor, scan: Scan, j: int, q: int)
    requires
        0 <= j <= q <= bytes.len(),
        1 <= q,
        scan.kind == ScanKind::Plain,
        scan.bracket_depth == 0,
        scan.paren_depth == 0,
        !in_flow(scan.context),
        phrase_bytes(bytes, j, q),
        is_word_byte(bytes[q - 1]),
        j < q ==> bytes[j] == 32,
        q == bytes.len() || ends_phrase(bytes, q),
        c.idx == stop_at(bytes, j),
    ensures
        plain_rest(bytes, c, scan, j) == (c.at(stop_at(bytes, q)), q),
    decreases q - j,
{
    let i = ws_end(bytes, c.idx);
    if j == q {
        assert(i == c.idx);
        scan_takes_word(bytes, c.idx, q, scan);
        if q == bytes.len() {
            assert(run_end(bytes, q - 1, q) == q) by {
                assert(run_end(bytes, q, q) == q);
            }
        }
        assert(c.at(c.idx) == c);
    } else {
        blanks_stop(bytes, j, q - 1);
        crate::cursor::ws_end_bounds(bytes, j);
        assert(is_word_byte(bytes[i]) || bytes[i] == 32 || bytes[i] == COLON);
        scan_takes_word(bytes, i, q, scan);
        let j2 = run_end(bytes, i, q);
        let s = scan_from(bytes, i, scan);
        let next = c.at(i).scanned(bytes, s);
        if !next.at_end(bytes) {
            phrase_goes_on(bytes, next, scan, j2, q);
        }
    }
}

/// A phrase that stands in the input before a byte that ends it, or up to the end of
/// the input, begins a scalar and is read as the plain scalar of its bytes.
proof fn phrase_is_scalar(bytes: Seq<u8>, c: Cursor, text: Seq<char>)
    requires
        is_phrase(text),
        at_text(bytes, c.idx, text),
        c.idx + text.len() == bytes.len() || ends_phrase(bytes, c.idx + text.len()),
        !in_flow(c.context()),
    ensures
        crate::bytes::is_scalar_start(c.current(bytes), c.peek(bytes), c.context()),
        !(c.current(bytes) == DASH && c.ahead(bytes, 1) == Some(DASH)),
        begins_line(c.current(bytes)),
        scalar(bytes, c.started(ParseContextKind::BlockMapping)) == Parsed::done(
            c.started(ParseContextKind::BlockMapping).at(stop_at(bytes, c.idx + text.len())),
            inferred(text),
        ),
        c.started(ParseContextKind::BlockMapping).at(
            stop_at(bytes, c.idx + text.len()),
        ).end_failure(ParseContextKind::BlockMapping) is None,
        c.started(ParseContextKind::BlockMapping).at(stop_at(bytes, c.idx + text.len())).ended()
            == c.at(stop_at(bytes, c.idx + text.len())),
{
    let p = c.idx;
    let n = text.len() as int;
    let q = p + n;
    assert forall|k: int| p <= k < q implies is_word_byte(#[trigger] bytes[k]) || bytes[k]
        == 32 || (bytes[k] == COLON && k + 1 < q && bytes[k + 1] != 32) by {
        assert(bytes[p + (k - p)] == text[k - p] as u8);
        if k + 1 < q {
            assert(bytes[p + (k + 1 - p)] == text[k + 1 - p] as u8);
        }
    }
    assert(bytes[p + 0] == text[0] as u8);
    assert(bytes[p + (n - 1)] == text[n - 1] as u8);
    if bytes[p] == DASH {
        assert(bytes[p + 1] == text[1] as u8);
        assert(is_ns_plain_safe(bytes[p + 1], c.context()));
    }
    let keyed = c.started(ParseContextKind::BlockMapping);
    let scan = Scan::plain(keyed.context());
    scan_takes_word(bytes, p, q, scan);
    let j = run_end(bytes, p, q);
    let first = keyed.scanned(bytes, scan_from(bytes, p, scan));
    assert(first.idx == stop_at(bytes, j));
    phrase_goes_on(bytes, first, scan, j, q);
    let behind = keyed.at(stop_at(bytes, q));
    assert(first.at(stop_at(bytes, q)) == behind);
    assert(text_between(bytes, p, q) == Some(text)) by {
        is_ascii_chars_encode_utf8(text);
        encode_utf8_decode_utf8(text);
        assert(bytes.subrange(p, q) =~= encode_utf8(text)) by {
            assert forall|k: int| 0 <= k < n implies bytes.subrange(p, q)[k] == encode_utf8(
                text,
            )[k] by {
                assert(bytes[p + k] == text[k] as u8);
            }
        }
        let b0 = bytes[p];
        assert(b0 < 128);
        assert(!(b0 & 0xC0 == 0x80)) by (bit_vector)
            requires
                b0 < 128,
        ;
        if q < bytes.len() {
            let bq = bytes[q];
            assert(bq < 128);
            assert(!(bq & 0xC0 == 0x80)) by (bit_vector)
                requires
                    bq < 128,
            ;
        }
    }
    assert(plain_scalar(bytes, keyed) == Parsed::done(behind, inferred(text)));
    assert(behind.ended().contexts =~= c.contexts);
}

/// A phrase that stands in the input where a value is read, before a line break,
/// before the colon of the key that is expected, or up to the end of the input, is
/// read as the plain scalar of its bytes.
proof fn phrase_is_read(bytes: Seq<u8>, c: Cursor, text: Seq<char>, depth: nat)
    requires
        depth >= 1,
        is_phrase(text),
        at_text(bytes, c.idx, text),
        c.idx + text.len() == bytes.len() || ends_phrase(bytes, c.idx + text.len()),
        !in_flow(c.context()),
        c.idx + text.len() == bytes.len() || is_linebreak(bytes[c.idx + text.len()])
            || c.awaited() == Some(COLON),
    ensures
        value(bytes, c, depth) == Parsed::done(
            c.at(stop_at(bytes, c.idx + text.len())),
            inferred(text),
        ),
{
    let q = c.idx + text.len();
    let stop = stop_at(bytes, q);
    phrase_is_scalar(bytes, c, text);
    let node = inferred(text);
    let closed = c.at(stop);
    if q == bytes.len() {
        assert(bytes[c.idx + (text.len() - 1)] == text[text.len() - 1] as u8);
    }
    assert(ws_end(bytes, stop) == stop);
    assert(comment_end(bytes, stop) == stop);
    assert(mapping_maybe(bytes, closed, node, (depth - 1) as nat) == Parsed::done(closed, node));
    assert(maybe_scalar(bytes, c, (depth - 1) as nat) == Parsed::done(closed, node));
}

/// A value that is written as a phrase and read back from it: an integer, a truth
/// value, or a floating-point number or a scalar whose text is a phrase that is read
/// as that value.
pub open spec fn is_plain_leaf(v: Node) -> bool {
    match v {
        Node::Int(i) => i64::MIN <= i <= i64::MAX,
        Node::Bool(_) => true,
        Node::Scalar(t) => is_phrase(t) && inferred(t) == v,
        Node::Float(t) => is_phrase(t) && inferred(t) == v,
        _ => false,
    }
}

/// A value that is made of phrases alone: a leaf, or a sequence or mapping that is not
/// empty, stands for no tag, has leaves for keys and holds values of this kind, where
/// a value under a key may also be tagged. The lines of a collection stand at
/// `indent`.
pub open spec fn is_plain(v: Node, indent: int) -> bool
    decreases v, 0nat,
{
    match v {
        Node::Sequence(items) => {
            &&& 0 <= indent <= usize::MAX - 2
            &&& items.len() >= 1
            &&& forall|i: int| 0 <= i < items.len() ==> is_plain(#[trigger] items[i], indent + 2)
        },
        Node::Mapping(entries) => {
            &&& 0 <= indent <= usize::MAX - 2
            &&& entries.len() >= 1
            &&& tag_name(v) is None
            &&& forall|i: int|
                0 <= i < entries.len() ==> is_plain_leaf((#[trigger] entries[i]).key) && is_value(
                    entries[i].value,
                    indent + 2,
                )
        },
        _ => is_plain_leaf(v),
    }
}

/// The name of a tag: letters, digits, `-` and `_`, at least one.
pub open spec fn is_tag_name(name: Seq<char>) -> bool {
    &&& is_ascii_chars(name)
    &&& name.len() >= 1
    &&& forall|k: int| 0 <= k < name.len() ==> is_tag_char(#[trigger] name[k] as u8)
}

/// A tagged value of phrases: a mapping that stands for a tag and holds nothing else,
/// or one leaf as its value, or further entries, which have leaves for keys, make up
/// no tagged mapping themselves and stand at `indent`.
pub open spec fn is_tagged(v: Node, indent: int) -> bool
    decreases v, 0nat,
{
    match v {
        Node::Mapping(entries) => {
            &&& 0 <= indent <= usize::MAX - 2
            &&& entries.len() >= 1
            &&& entries[0].key == Node::Scalar("__type"@)
            &&& entries[0].value matches Node::Scalar(tag) && is_tag_name(tag)
            &&& entries.len() == 1 || (holds_value(entries) && is_plain_leaf(entries[1].value)) || (
            !holds_value(entries) && entries.len() >= 2 && !(entries[1].key == Node::Scalar(
                "__type"@,
            ) && entries[1].value is Scalar) && forall|i: int|
                1 <= i < entries.len() ==> is_plain_leaf((#[trigger] entries[i]).key) && is_value(
                    entries[i].value,
                    indent + 2,
                ))
        },
        _ => false,
    }
}

/// A value of phrases, tagged or not.
pub open spec fn is_value(v: Node, indent: int) -> bool
    decreases v, 1nat,
{
    is_plain(v, indent) || is_tagged(v, indent)
}

/// The entries of the mapping `parent` from the one at `base` on have leaves for keys
/// and hold values of phrases, and stand at `indent`.
pub open spec fn entries_plain(parent: Node, base: int, indent: int) -> bool {
    match parent {
        Node::Mapping(entries) => {
            &&& 0 <= indent <= usize::MAX - 2
            &&& 0 <= base < entries.len()
            &&& forall|i: int|
                base <= i < entries.len() ==> is_plain_leaf((#[trigger] entries[i]).key)
                    && is_value(entries[i].value, indent + 2)
        },
        _ => false,
    }
}

/// How many levels of nesting reading a value of phrases costs. A tag costs one.
pub open spec fn height(v: Node) -> nat
    decreases v,
{
    match v {
        Node::Sequence(items) => 1 + tallest(items, items.len() as int),
        Node::Mapping(entries) => 1 + tallest_value(entries, entries.len() as int) + if tag_name(
            v,
        ) is Some {
            1nat
        } else {
            0nat
        },
        _ => 1,
    }
}

/// The greatest height among the first `n` of `items`.
pub open spec fn tallest(items: Seq<Node>, n: int) -> nat
    decreases items, n,
{
    if 0 < n <= items.len() {
        let rest = tallest(items, n - 1);
        let h = height(items[n - 1]);
        if h > rest {
            h
        } else {
            rest
        }
    } else {
        0
    }
}

/// The greatest height among the values of the first `n` of `entries`.
pub open spec fn tallest_value(entries: Seq<Pair>, n: int) -> nat
    decreases entries, n,
{
    if 0 < n <= entries.len() {
        let rest = tallest_value(entries, n - 1);
        let h = height(entries[n - 1].value);
        if h > rest {
            h
        } else {
            rest
        }
    } else {
        0
    }
}

/// The text of a leaf of phrases is a phrase that is read as the leaf.
proof fn leaf_is_phrase(v: Node)
    requires
        is_plain_leaf(v),
    ensures
        is_phrase(leaf(v)),
        inferred(leaf(v)) == v,
{
    match v {
        Node::Int(i) => {
            signed_decimal_is_int(i);
            let text = signed_decimal(i);
            let bytes = encode_utf8(text);
            assert forall|k: int| 0 <= k < text.len() implies is_word_byte(
                #[trigger] text[k] as u8,
            ) || text[k] as u8 == 32 by {
                assert(is_digit(bytes[k]) || (bytes[k] == DASH && k == 0 && bytes.len() > 1));
                assert(bytes[k] == text[k] as u8);
            }
            assert(bytes[0] == text[0] as u8);
            assert(bytes[text.len() - 1] == text[text.len() - 1] as u8);
            assert(is_digit(bytes[0]) || (bytes[0] == DASH && 0 == 0 && bytes.len() > 1));
            if text[0] as u8 == DASH {
                assert(is_digit(bytes[1]) || (bytes[1] == DASH && 1 == 0 && bytes.len() > 1));
                assert(bytes[1] == text[1] as u8);
            }
        },
        Node::Bool(b) => {
            reveal_strlit("true");
            reveal_strlit("yes");
            reveal_strlit("on");
            reveal_strlit("false");
            let text = leaf(v);
            let bytes = encode_utf8(text);
            is_ascii_chars_encode_utf8(text);
            is_ascii_chars_encode_utf8("true"@);
            is_ascii_chars_encode_utf8("yes"@);
            is_ascii_chars_encode_utf8("on"@);
            is_ascii_chars_encode_utf8("false"@);
            if b {
                assert(bytes =~= "true".spec_bytes());
            } else {
                assert(bytes =~= "false".spec_bytes());
                assert("true".spec_bytes().len() == 4);
                assert("yes".spec_bytes().len() == 3);
                assert("on".spec_bytes().len() == 2);
            }
            assert(bool_value(bytes) == Some(b));
        },
        _ => {},
    }
}

/// A text stands in the input where two texts that make it up stand one behind the
/// other.
proof fn at_concat(bytes: Seq<u8>, p: int, a: Seq<char>, b: Seq<char>)
    ensures
        at_text(bytes, p, a + b) <==> at_text(bytes, p, a) && at_text(bytes, p + a.len(), b),
{
    let whole = a + b;
    if at_text(bytes, p, whole) {
        assert forall|i: int| 0 <= i < a.len() implies bytes[p + i] == #[trigger] a[i] as u8 by {
            assert(whole[i] == a[i]);
        }
        assert forall|i: int| 0 <= i < b.len() implies bytes[p + a.len() + i] == #[trigger] b[i]
            as u8 by {
            assert(whole[a.len() + i] == b[i]);
            assert(bytes[p + (a.len() + i)] == whole[a.len() + i] as u8);
        }
    }
    if at_text(bytes, p, a) && at_text(bytes, p + a.len(), b) {
        assert forall|i: int| 0 <= i < whole.len() implies bytes[p + i] == #[trigger] whole[i]
            as u8 by {
            if i < a.len() {
                assert(whole[i] == a[i]);
            } else {
                assert(whole[i] == b[i - a.len()]);
                assert(bytes[p + a.len() + (i - a.len())] == b[i - a.len()] as u8);
            }
        }
    }
}

/// Where blanks stand in the input before a byte that is none, the run of blanks ends
/// at that byte.
proof fn blanks_end(bytes: Seq<u8>, p: int, n: nat)
    requires
        at_text(bytes, p, repeated(" "@, n)),
        p + n < bytes.len(),
        !is_ws(bytes[p + n]),
    ensures
        ws_end(bytes, p) == p + n,
    decreases n,
{
    reveal_strlit(" ");
    repeated_len(" "@, n);
    if n > 0 {
        let text = repeated(" "@, n);
        let rest = repeated(" "@, (n - 1) as nat);
        repeated_len(" "@, (n - 1) as nat);
        assert(text == rest + " "@);
        assert(text[n - 1] == ' ');
        blanks_front(n);
        assert(text[0] == ' ');
        assert(bytes[p + 0] == text[0] as u8);
        assert(at_text(bytes, p + 1, rest)) by {
            assert forall|i: int| 0 <= i < rest.len() implies bytes[p + 1 + i] == #[trigger] rest[i]
                as u8 by {
                blanks_all(n, i + 1);
                blanks_all((n - 1) as nat, i);
                assert(bytes[p + (i + 1)] == text[i + 1] as u8);
            }
        }
        blanks_end(bytes, p + 1, (n - 1) as nat);
    }
}

/// Every character of a run of blanks is a blank.
proof fn blanks_all(n: nat, i: int)
    requires
        0 <= i < n,
    ensures
        repeated(" "@, n).len() == n,
        repeated(" "@, n)[i] == ' ',
    decreases n,
{
    reveal_strlit(" ");
    repeated_len(" "@, n);
    repeated_len(" "@, (n - 1) as nat);
    if i < n - 1 {
        blanks_all((n - 1) as nat, i);
    }
}

/// A run of blanks begins with a blank.
proof fn blanks_front(n: nat)
    requires
        n > 0,
    ensures
        repeated(" "@, n)[0] == ' ',
{
    blanks_all(n, 0);
}

/// An entry of a mapping at `indent` without the blanks that its line begins with.
pub open spec fn entry_rest(e: Pair, indent: int) -> Seq<char> {
    leaf(e.key) + ":"@ + after_colon(e.value, indent as usize)
}

/// The entries of the mapping `parent` from the one at `k` on, without the blanks
/// that the first of their lines begins with.
pub open spec fn entries_rest(parent: Node, k: int, indent: int) -> Seq<char> {
    match parent {
        Node::Mapping(entries) => entry_rest(entries[k], indent) + entries_from(
            parent,
            k + 1,
            indent as usize,
        ),
        _ => Seq::empty(),
    }
}

/// An item of a sequence at `indent` without the blanks that its line begins with.
pub open spec fn item_rest(el: Node, indent: int) -> Seq<char> {
    "-"@ + (match el {
        Node::Sequence(_) => "\n"@ + block(el, (indent + 2) as usize),
        Node::Mapping(_) => " "@ + entries_rest(el, 0, indent + 2),
        _ => " "@ + leaf(el) + "\n"@,
    })
}

/// The items of the sequence `parent` from the one at `k` on, without the blanks that
/// the first of their lines begins with.
pub open spec fn items_rest(parent: Node, k: int, indent: int) -> Seq<char> {
    match parent {
        Node::Sequence(items) => item_rest(items[k], indent) + items_from(
            parent,
            k + 1,
            indent as usize,
        ),
        _ => Seq::empty(),
    }
}

/// A collection at `indent` without the blanks that its first line begins with.
pub open spec fn inner_text(v: Node, indent: int) -> Seq<char> {
    match v {
        Node::Sequence(_) => items_rest(v, 0, indent),
        Node::Mapping(_) => entries_rest(v, 0, indent),
        _ => Seq::empty(),
    }
}

/// The bytes of the four marks that stand between words.
proof fn marks()
    ensures
        " "@.len() == 1 && " "@[0] as u8 == 32,
        "-"@.len() == 1 && "-"@[0] as u8 == DASH,
        ":"@.len() == 1 && ":"@[0] as u8 == COLON,
        "\n"@.len() == 1 && "\n"@[0] as u8 == 10,
{
    reveal_strlit(" ");
    reveal_strlit("-");
    reveal_strlit(":");
    reveal_strlit("\n");
}

/// An entry with a phrase for its key is blanks and then the rest of the entry.
proof fn entry_text_is(e: Pair, indent: int)
    requires
        is_plain_leaf(e.key),
        0 <= indent <= usize::MAX,
    ensures
        entry_text(e, indent as usize) == repeated(" "@, indent as nat) + entry_rest(e, indent),
{
    assert(is_scalar_node(e.key));
    assert(block(e.key, indent as usize) == leaf(e.key));
    assert(entry_text(e, indent as usize) =~= repeated(" "@, indent as nat) + entry_rest(
        e,
        indent,
    ));
}

/// The entries of a mapping of phrases from one of them on are blanks and then the rest.
proof fn entries_from_is(parent: Node, k: int, indent: int)
    requires
        parent matches Node::Mapping(entries) && 0 <= k < entries.len() && is_plain_leaf(
            entries[k].key,
        ),
        0 <= indent <= usize::MAX,
    ensures
        entries_from(parent, k, indent as usize) == repeated(" "@, indent as nat) + entries_rest(
            parent,
            k,
            indent,
        ),
{
    let entries = parent->Mapping_0;
    entry_text_is(entries[k], indent);
    assert(entries_from(parent, k, indent as usize) =~= repeated(" "@, indent as nat)
        + entries_rest(parent, k, indent));
}

/// An item of phrases is blanks and then the rest of the item.
proof fn item_text_is(el: Node, indent: int)
    requires
        is_plain(el, indent + 2),
        0 <= indent <= usize::MAX - 2,
    ensures
        item_text(el, indent as usize) == repeated(" "@, indent as nat) + item_rest(el, indent),
{
    assert(further(indent as usize) == indent + 2);
    match el {
        Node::Sequence(_) => {
            assert(item_text(el, indent as usize) =~= repeated(" "@, indent as nat) + item_rest(
                el,
                indent,
            ));
        },
        Node::Mapping(entries) => {
            assert(is_plain_leaf(entries[0].key));
            assert(is_scalar_node(entries[0].key));
            assert(block(entries[0].key, indent as usize) == leaf(entries[0].key));
            assert(item_text(el, indent as usize) =~= repeated(" "@, indent as nat) + item_rest(
                el,
                indent,
            ));
        },
        _ => {
            assert(block(el, indent as usize) == leaf(el));
            assert(item_text(el, indent as usize) =~= repeated(" "@, indent as nat) + item_rest(
                el,
                indent,
            ));
        },
    }
}

/// The items of a sequence of phrases from one of them on are blanks and then the rest.
proof fn items_from_is(parent: Node, k: int, indent: int)
    requires
        parent matches Node::Sequence(items) && 0 <= k < items.len() && is_plain(
            items[k],
            indent + 2,
        ),
        0 <= indent <= usize::MAX - 2,
    ensures
        items_from(parent, k, indent as usize) == repeated(" "@, indent as nat) + items_rest(
            parent,
            k,
            indent,
        ),
{
    let items = parent->Sequence_0;
    item_text_is(items[k], indent);
    assert(items_from(parent, k, indent as usize) =~= repeated(" "@, indent as nat) + items_rest(
        parent,
        k,
        indent,
    ));
}

/// A collection of phrases is blanks and then the rest of the collection.
proof fn block_is(v: Node, indent: int)
    requires
        is_plain(v, indent),
        v is Sequence || v is Mapping,
    ensures
        block(v, indent as usize) == repeated(" "@, indent as nat) + inner_text(v, indent),
{
    match v {
        Node::Sequence(items) => {
            assert(is_plain(items[0], indent + 2));
            items_from_is(v, 0, indent);
        },
        Node::Mapping(entries) => {
            assert(is_plain_leaf(entries[0].key));
            entries_from_is(v, 0, indent);
        },
        _ => {},
    }
}

/// Behind its colon a phrase follows on the same line, and a collection of phrases on
/// the lines below, one level further in.
proof fn after_colon_is(v: Node, indent: int)
    requires
        is_plain(v, indent + 2),
        0 <= indent <= usize::MAX - 2,
    ensures
        after_colon(v, indent as usize) == (if v is Sequence || v is Mapping {
            "\n"@ + (repeated(" "@, (indent + 2) as nat) + inner_text(v, indent + 2))
        } else {
            " "@ + leaf(v) + "\n"@
        }),
{
    assert(further(indent as usize) == indent + 2);
    if v is Sequence || v is Mapping {
        block_is(v, indent + 2);
        assert(tag_name(v) is None);
        assert(!is_scalar_node(v));
    } else {
        assert(tag_name(v) is None);
        assert(is_scalar_node(v));
        assert(block(v, indent as usize) == leaf(v));
    }
}

/// Behind offset `e` the input ends, or a line follows that is indented less than
/// `below` and begins, behind its blanks, with a byte that is no blank, no line break
/// and no `#` and is not the last byte of the input.
pub open spec fn line_follows(bytes: Seq<u8>, e: int, below: int) -> bool {
    e == bytes.len() || (0 <= e < bytes.len() && {
        let q = ws_end(bytes, e);
        &&& q + 1 < bytes.len()
        &&& q - e < below
        &&& !is_ws(bytes[q]) && !is_linebreak(bytes[q]) && bytes[q] != HASH
    })
}

/// The cursor `x` is where reading a collection that ends before offset `e` leaves
/// it: on the last byte where the input ends there, and otherwise on the first byte
/// of the next line that is no blank, with the blanks before it counted as the
/// indentation.
pub open spec fn left_at(
    bytes: Seq<u8>,
    e: int,
    expected: Seq<u8>,
    contexts: Seq<ParseContext>,
    x: Cursor,
) -> bool {
    &&& x.expected == expected
    &&& x.contexts == contexts
    &&& if e >= bytes.len() {
        x.idx == bytes.len() - 1
    } else {
        x.idx == ws_end(bytes, e) && x.indent == ws_end(bytes, e) - e
    }
}

/// Each of the first `n` items is no taller than the tallest of them.
proof fn tallest_bounds(items: Seq<Node>, n: int, i: int)
    requires
        0 <= i < n <= items.len(),
    ensures
        height(items[i]) <= tallest(items, n),
    decreases n,
{
    if i < n - 1 {
        tallest_bounds(items, n - 1, i);
    }
}

/// The value of each of the first `n` entries is no taller than the tallest of them.
proof fn tallest_value_bounds(entries: Seq<Pair>, n: int, i: int)
    requires
        0 <= i < n <= entries.len(),
    ensures
        height(entries[i].value) <= tallest_value(entries, n),
    decreases n,
{
    if i < n - 1 {
        tallest_value_bounds(entries, n - 1, i);
    }
}

/// From a line break that ends an entry, reading the entries of a block mapping goes
/// on at the first byte of the next line that is no blank.
proof fn entries_pass_line_break(
    bytes: Seq<u8>,
    x: Cursor,
    acc: Seq<Pair>,
    indent: int,
    depth: nat,
)
    requires
        0 <= x.idx,
        x.idx + 1 < bytes.len(),
        is_linebreak(bytes[x.idx]),
        !is_linebreak(bytes[x.idx + 1]),
        ws_end(bytes, x.idx + 1) + 1 < bytes.len(),
    ensures
        block_entries(bytes, x, acc, indent, depth) == block_entries(
            bytes,
            x.at(ws_end(bytes, x.idx + 1)).indented(ws_end(bytes, x.idx + 1) - (x.idx + 1)),
            acc,
            indent,
            depth,
        ),
{
    let e = x.idx + 1;
    let q = ws_end(bytes, e);
    crate::cursor::ws_end_bounds(bytes, e);
    let y0 = x.indented(0).bumped_newline(bytes);
    assert(y0 == x.at(e).indented(0));
    assert(block_entry(bytes, x, acc, indent, depth) == Step::More(y0, acc));
    assert(block_entries(bytes, x, acc, indent, depth) == block_entries(
        bytes,
        y0,
        acc,
        indent,
        depth,
    ));
    if q > e {
        assert(is_ws(bytes[e]));
        assert(y0.indent_chomped(bytes) == x.at(q).indented(q - e));
        assert(block_entry(bytes, y0, acc, indent, depth) == Step::More(
            y0.indent_chomped(bytes),
            acc,
        ));
    }
}

/// From a line break that ends an item, reading the items of a block sequence goes on
/// at the first byte of the next line that is no blank.
proof fn items_pass_line_break(
    bytes: Seq<u8>,
    x: Cursor,
    acc: Seq<Node>,
    indent: int,
    depth: nat,
)
    requires
        0 <= x.idx,
        x.idx + 1 < bytes.len(),
        is_linebreak(bytes[x.idx]),
        !is_linebreak(bytes[x.idx + 1]),
        ws_end(bytes, x.idx + 1) + 1 < bytes.len(),
    ensures
        block_items(bytes, x, acc, indent, depth) == block_items(
            bytes,
            x.at(ws_end(bytes, x.idx + 1)).indented(ws_end(bytes, x.idx + 1) - (x.idx + 1)),
            acc,
            indent,
            depth,
        ),
{
    let e = x.idx + 1;
    let q = ws_end(bytes, e);
    crate::cursor::ws_end_bounds(bytes, e);
    let y0 = x.indented(0).bumped_newline(bytes);
    assert(y0 == x.at(e).indented(0));
    assert(block_item(bytes, x, acc, indent, depth) == Step::More(y0, acc));
    assert(block_items(bytes, x, acc, indent, depth) == block_items(bytes, y0, acc, indent, depth));
    if q > e {
        assert(is_ws(bytes[e]));
        assert(y0.indent_chomped(bytes) == x.at(q).indented(q - e));
        assert(block_item(bytes, y0, acc, indent, depth) == Step::More(
            y0.indent_chomped(bytes),
            acc,
        ));
    }
}

/// Where further entries of a mapping of phrases stand behind offset `e`, the line at
/// `e` begins with the blanks of the mapping's indentation and then with a phrase.
proof fn entry_line_follows(bytes: Seq<u8>, e: int, parent: Node, k: int, indent: int)
    requires
        parent matches Node::Mapping(entries) && 0 <= k < entries.len() && is_plain_leaf(
            entries[k].key,
        ),
        0 <= indent <= usize::MAX,
        at_text(bytes, e, entries_from(parent, k, indent as usize)),
    ensures
        ws_end(bytes, e) == e + indent,
        at_text(bytes, e + indent, entries_rest(parent, k, indent)),
        entries_rest(parent, k, indent).len() >= 2,
        entries_from(parent, k, indent as usize).len() == indent + entries_rest(
            parent,
            k,
            indent,
        ).len(),
        e + indent + 1 < bytes.len(),
        begins_line(bytes[e + indent]),
        !is_linebreak(bytes[e]),
        line_follows(bytes, e, indent + 1),
{
    let entries = parent->Mapping_0;
    let rest = entries_rest(parent, k, indent);
    let key = leaf(entries[k].key);
    marks();
    entries_from_is(parent, k, indent);
    at_concat(bytes, e, repeated(" "@, indent as nat), rest);
    repeated_len(" "@, indent as nat);
    leaf_is_phrase(entries[k].key);
    assert(rest == (key + ":"@ + after_colon(entries[k].value, indent as usize)) + entries_from(
        parent,
        k + 1,
        indent as usize,
    ));
    assert(rest[0] == key[0]);
    assert(bytes[e + indent + 0] == rest[0] as u8);
    blanks_end(bytes, e, indent as nat);
    if indent > 0 {
        blanks_front(indent as nat);
        assert(bytes[e + 0] == repeated(" "@, indent as nat)[0] as u8);
    }
}

/// Where further items of a sequence of phrases stand behind offset `e`, the line at
/// `e` begins with the blanks of the sequence's indentation and then with `-`.
proof fn item_line_follows(bytes: Seq<u8>, e: int, parent: Node, k: int, indent: int)
    requires
        parent matches Node::Sequence(items) && is_plain(parent, indent) && 0 <= k < items.len(),
        at_text(bytes, e, items_from(parent, k, indent as usize)),
    ensures
        ws_end(bytes, e) == e + indent,
        at_text(bytes, e + indent, items_rest(parent, k, indent)),
        items_rest(parent, k, indent).len() >= 2,
        items_from(parent, k, indent as usize).len() == indent + items_rest(
            parent,
            k,
            indent,
        ).len(),
        e + indent + 1 < bytes.len(),
        bytes[e + indent] == DASH,
        !is_linebreak(bytes[e]),
        line_follows(bytes, e, indent + 1),
{
    let items = parent->Sequence_0;
    let rest = items_rest(parent, k, indent);
    marks();
    assert(is_plain(items[k], indent + 2));
    items_from_is(parent, k, indent);
    at_concat(bytes, e, repeated(" "@, indent as nat), rest);
    repeated_len(" "@, indent as nat);
    let body = item_rest(items[k], indent);
    item_begins(items[k], indent);
    assert(rest[0] == body[0]);
    assert(bytes[e + indent + 0] == rest[0] as u8);
    blanks_end(bytes, e, indent as nat);
    if indent > 0 {
        blanks_front(indent as nat);
        assert(bytes[e + 0] == repeated(" "@, indent as nat)[0] as u8);
    }
}

/// A line that follows, indented less than one bound, follows indented less than any
/// greater bound.
proof fn line_follows_further(bytes: Seq<u8>, e: int, below: int, more: int)
    requires
        line_follows(bytes, e, below),
        below <= more,
    ensures
        line_follows(bytes, e, more),
{
}

/// Behind the colon of its key in a mapping at `indent`, the value `v` is read: a
/// phrase or a tagged leaf from the same line, which leaves the cursor on the line
/// break that ends it, and a collection from the lines below.
proof fn value_behind_colon(bytes: Seq<u8>, c: Cursor, v: Node, indent: int, depth: nat)
    requires
        0 <= indent <= usize::MAX - 2,
        is_value(v, indent + 2),
        depth >= height(v),
        0 <= c.idx,
        at_text(bytes, c.idx + 1, after_colon(v, indent as usize)),
        v is Sequence || v is Mapping ==> line_follows(
            bytes,
            c.idx + 1 + after_colon(v, indent as usize).len(),
            indent + 2,
        ),
        c.expected.len() == 0,
        !in_flow(c.context()),
    ensures
        ({
            let t = ws_end(bytes, c.idx + 1);
            let e = c.idx + 1 + after_colon(v, indent as usize).len();
            let r = value(bytes, c.at(t), depth);
            &&& c.idx + 1 < bytes.len()
            &&& is_ws(bytes[c.idx + 1]) || is_linebreak(bytes[c.idx + 1])
            &&& comment_end(bytes, t) == t
            &&& r.result == Ok::<Node, Failure>(v)
            &&& c.idx < r.cursor.idx < bytes.len()
            &&& r.cursor.expected == c.expected
            &&& r.cursor.contexts == c.contexts
            &&& left_at(bytes, e, c.expected, c.contexts, r.cursor) || (r.cursor.idx == e - 1
                && is_linebreak(bytes[e - 1]))
        }),
    decreases v, 2 * count(v) + 8,
{
    if is_plain(v, indent + 2) {
        plain_behind_colon(bytes, c, v, indent, depth);
    } else {
        tagged_behind_colon(bytes, c, v, indent, depth);
    }
}

/// Behind the colon of its key in a mapping at `indent`, the value `v` that is not
/// tagged is read: a phrase from the same line, which leaves the cursor on the line
/// break that ends it, and a collection from the lines below.
proof fn plain_behind_colon(bytes: Seq<u8>, c: Cursor, v: Node, indent: int, depth: nat)
    requires
        0 <= indent <= usize::MAX - 2,
        is_plain(v, indent + 2),
        depth >= height(v),
        0 <= c.idx,
        at_text(bytes, c.idx + 1, after_colon(v, indent as usize)),
        v is Sequence || v is Mapping ==> line_follows(
            bytes,
            c.idx + 1 + after_colon(v, indent as usize).len(),
            indent + 2,
        ),
        c.expected.len() == 0,
        !in_flow(c.context()),
    ensures
        ({
            let t = ws_end(bytes, c.idx + 1);
            let e = c.idx + 1 + after_colon(v, indent as usize).len();
            let r = value(bytes, c.at(t), depth);
            &&& c.idx + 1 < bytes.len()
            &&& is_ws(bytes[c.idx + 1]) || is_linebreak(bytes[c.idx + 1])
            &&& comment_end(bytes, t) == t
            &&& r.result == Ok::<Node, Failure>(v)
            &&& c.idx < r.cursor.idx < bytes.len()
            &&& r.cursor.expected == c.expected
            &&& r.cursor.contexts == c.contexts
            &&& if v is Sequence || v is Mapping {
                left_at(bytes, e, c.expected, c.contexts, r.cursor)
            } else {
                r.cursor.idx == e - 1 && is_linebreak(bytes[e - 1])
            }
        }),
    decreases v, 2 * count(v) + 7,
{
    let p = c.idx + 1;
    after_colon_is(v, indent);
    marks();
    if v is Sequence || v is Mapping {
        block_is(v, indent + 2);
        let below = block(v, (indent + 2) as usize);
        assert(after_colon(v, indent as usize) == "\n"@ + below);
        at_concat(bytes, p, "\n"@, below);
        assert(bytes[p + 0] == "\n"@[0] as u8);
        assert(ws_end(bytes, p) == p);
        assert(comment_end(bytes, p) == p);
        collection_below(bytes, c.at(p), v, indent + 2, depth);
    } else {
        let word = leaf(v);
        leaf_is_phrase(v);
        assert(after_colon(v, indent as usize) == (" "@ + word) + "\n"@);
        at_concat(bytes, p, " "@ + word, "\n"@);
        at_concat(bytes, p, " "@, word);
        assert(bytes[p + 0] == " "@[0] as u8);
        assert(bytes[p + 1 + 0] == word[0] as u8);
        assert(is_word_byte(bytes[p + 1]));
        assert(ws_end(bytes, p + 1) == p + 1);
        assert(ws_end(bytes, p) == p + 1);
        assert(comment_end(bytes, p + 1) == p + 1);
        let q = p + 1 + word.len();
        assert(bytes[q + 0] == "\n"@[0] as u8);
        phrase_is_read(bytes, c.at(p + 1), word, depth);
    }
}

/// A collection of phrases that stands on the lines below a line break is read from
/// that line break on.
proof fn collection_below(bytes: Seq<u8>, c: Cursor, v: Node, indent: int, depth: nat)
    requires
        is_plain(v, indent),
        v is Sequence || v is Mapping,
        indent >= 1,
        depth >= height(v),
        0 <= c.idx < bytes.len(),
        is_linebreak(bytes[c.idx]),
        at_text(bytes, c.idx + 1, block(v, indent as usize)),
        line_follows(bytes, c.idx + 1 + block(v, indent as usize).len(), indent),
        c.expected.len() == 0,
        !in_flow(c.context()),
    ensures
        ({
            let e = c.idx + 1 + block(v, indent as usize).len();
            let r = value(bytes, c, depth);
            &&& r.result == Ok::<Node, Failure>(v)
            &&& c.idx < r.cursor.idx < bytes.len()
            &&& left_at(bytes, e, c.expected, c.contexts, r.cursor)
        }),
    decreases v, 2 * count(v) + 6,
{
    let p = c.idx + 1;
    let blanks = repeated(" "@, indent as nat);
    let inner = inner_text(v, indent);
    marks();
    block_is(v, indent);
    at_concat(bytes, p, blanks, inner);
    repeated_len(" "@, indent as nat);
    first_of_collection(v, indent);
    assert(bytes[p + indent + 0] == inner[0] as u8);
    blanks_end(bytes, p, indent as nat);
    blanks_front(indent as nat);
    assert(bytes[p + 0] == blanks[0] as u8);
    marks();
    assert(newlines_end(bytes, p) == p);
    assert(newlines_end(bytes, c.idx) == p);
    let c1 = c.at(p).indented(0);
    let c2 = c.at(p + indent).indented(indent);
    assert(c1.indent_chomped(bytes) == c2);
    collection_at(bytes, c2, v, indent, depth);
    let r = value(bytes, c2, depth);
    assert(value(bytes, c1, depth) == r);
    assert(value(bytes, c, depth) == r);
}

/// The text of a collection of phrases behind the blanks of its first line begins with
/// `-` or with a letter, a digit, `-` or `_`, and is at least two characters long.
proof fn first_of_collection(v: Node, indent: int)
    requires
        is_plain(v, indent),
        v is Sequence || v is Mapping,
    ensures
        inner_text(v, indent).len() >= 2,
        begins_line(inner_text(v, indent)[0] as u8),
{
    marks();
    match v {
        Node::Sequence(items) => {
            let body = item_rest(items[0], indent);
            item_begins(items[0], indent);
            assert(inner_text(v, indent)[0] == body[0]);
        },
        Node::Mapping(entries) => {
            leaf_is_phrase(entries[0].key);
            let key = leaf(entries[0].key);
            let rest = entry_rest(entries[0], indent);
            assert(rest[0] == key[0]);
            assert(inner_text(v, indent)[0] == rest[0]);
        },
        _ => {},
    }
}

/// An item begins with `-`, and a blank or a line break follows.
proof fn item_begins(el: Node, indent: int)
    ensures
        item_rest(el, indent).len() >= 2,
        item_rest(el, indent)[0] as u8 == DASH,
        item_rest(el, indent)[1] as u8 == 32 || item_rest(el, indent)[1] as u8 == 10,
        el is Sequence <==> item_rest(el, indent)[1] as u8 == 10,
{
    marks();
    let body = item_rest(el, indent);
    match el {
        Node::Sequence(_) => {
            let rest = "\n"@ + block(el, (indent + 2) as usize);
            assert(body == "-"@ + rest);
            assert(body[0] == "-"@[0]);
            assert(body[1] == rest[0]);
            assert(rest[0] == "\n"@[0]);
        },
        Node::Mapping(_) => {
            let rest = " "@ + entries_rest(el, 0, indent + 2);
            assert(body == "-"@ + rest);
            assert(body[0] == "-"@[0]);
            assert(body[1] == rest[0]);
            assert(rest[0] == " "@[0]);
        },
        _ => {
            let rest = " "@ + leaf(el) + "\n"@;
            assert(body == "-"@ + rest);
            assert(body[0] == "-"@[0]);
            assert(body[1] == rest[0]);
            assert(rest[0] == " "@[0]);
        },
    }
}

/// A collection of phrases is read from its first byte behind the blanks of its first
/// line, where those blanks have been counted as the indentation.
proof fn collection_at(bytes: Seq<u8>, c: Cursor, v: Node, indent: int, depth: nat)
    requires
        is_plain(v, indent),
        v is Sequence || v is Mapping,
        depth >= height(v),
        c.indent == indent,
        0 <= c.idx,
        at_text(bytes, c.idx, inner_text(v, indent)),
        line_follows(bytes, c.idx + inner_text(v, indent).len(), indent),
        c.expected.len() == 0,
        !in_flow(c.context()),
    ensures
        ({
            let e = c.idx + inner_text(v, indent).len();
            let r = value(bytes, c, depth);
            &&& r.result == Ok::<Node, Failure>(v)
            &&& c.idx < r.cursor.idx < bytes.len()
            &&& left_at(bytes, e, c.expected, c.contexts, r.cursor)
        }),
    decreases v, 2 * count(v) + 5,
{
    if v is Sequence {
        sequence_at(bytes, c, v, indent, depth);
    } else {
        mapping_at(bytes, c, v, indent, depth);
    }
}

/// A sequence of phrases is read from the `-` of its first item.
proof fn sequence_at(bytes: Seq<u8>, c: Cursor, v: Node, indent: int, depth: nat)
    requires
        is_plain(v, indent),
        v is Sequence,
        depth >= height(v),
        c.indent == indent,
        0 <= c.idx,
        at_text(bytes, c.idx, inner_text(v, indent)),
        line_follows(bytes, c.idx + inner_text(v, indent).len(), indent),
        c.expected.len() == 0,
        !in_flow(c.context()),
    ensures
        ({
            let e = c.idx + inner_text(v, indent).len();
            let r = value(bytes, c, depth);
            &&& r.result == Ok::<Node, Failure>(v)
            &&& c.idx < r.cursor.idx < bytes.len()
            &&& left_at(bytes, e, c.expected, c.contexts, r.cursor)
        }),
    decreases v, 2 * count(v) + 3,
{
    let items = v->Sequence_0;
    let body = item_rest(items[0], indent);
    let more = items_from(v, 1, indent as usize);
    assert(inner_text(v, indent) == body + more);
    at_concat(bytes, c.idx, body, more);
    item_begins(items[0], indent);
    assert(bytes[c.idx + 0] == body[0] as u8);
    assert(bytes[c.idx + 1] == body[1] as u8);
    let open = c.started(ParseContextKind::Block);
    assert(open.contexts.len() > 0 && closes(ParseContextKind::Block, open.contexts.last()));
    assert(open.contexts.drop_last() =~= c.contexts);
    tallest_bounds(items, items.len() as int, 0);
    items_at(bytes, open, v, 0, indent, (depth - 1) as nat);
    assert(items.subrange(0, 0) =~= Seq::<Node>::empty());
    let r = block_items(bytes, open, Seq::empty(), indent, (depth - 1) as nat);
    items_move_on(bytes, open, v, 0, indent, (depth - 1) as nat);
    assert(block_sequence(bytes, c, (depth - 1) as nat) == r);
    assert(value(bytes, c, depth) == r);
}

/// Reading the items of a sequence of phrases from one of them on leaves the cursor
/// behind where it began, on a byte of the input.
proof fn items_move_on(
    bytes: Seq<u8>,
    c: Cursor,
    parent: Node,
    k: int,
    indent: int,
    depth: nat,
)
    requires
        parent matches Node::Sequence(items) && 0 <= k < items.len(),
        0 <= c.idx,
        at_text(bytes, c.idx, items_rest(parent, k, indent)),
        line_follows(bytes, c.idx + items_rest(parent, k, indent).len(), indent),
        left_at(
            bytes,
            c.idx + items_rest(parent, k, indent).len(),
            c.expected,
            c.contexts.drop_last(),
            block_items(bytes, c, parent->Sequence_0.subrange(0, k), indent, depth).cursor,
        ),
    ensures
        c.idx < block_items(bytes, c, parent->Sequence_0.subrange(0, k), indent, depth).cursor.idx
            < bytes.len(),
{
    let items = parent->Sequence_0;
    item_begins(items[k], indent);
    let e = c.idx + items_rest(parent, k, indent).len();
    if e < bytes.len() {
        crate::cursor::ws_end_bounds(bytes, e);
    }
}

/// A mapping of phrases is read from the first byte of its first key.
proof fn mapping_at(bytes: Seq<u8>, c: Cursor, v: Node, indent: int, depth: nat)
    requires
        is_plain(v, indent),
        v is Mapping,
        depth >= height(v),
        c.indent == indent,
        0 <= c.idx,
        at_text(bytes, c.idx, inner_text(v, indent)),
        line_follows(bytes, c.idx + inner_text(v, indent).len(), indent),
        c.expected.len() == 0,
        !in_flow(c.context()),
    ensures
        ({
            let e = c.idx + inner_text(v, indent).len();
            let r = value(bytes, c, depth);
            &&& r.result == Ok::<Node, Failure>(v)
            &&& c.idx < r.cursor.idx < bytes.len()
            &&& left_at(bytes, e, c.expected, c.contexts, r.cursor)
        }),
    decreases v, 2 * count(v) + 4,
{
    let entries = v->Mapping_0;
    assert(entries.subrange(0, entries.len() as int) =~= entries);
    mapping_from(bytes, c, v, 0, indent, depth);
}

/// The entries of a mapping from the one at `base` on, which stand in the input from
/// the first byte of its key on, are read as a mapping of their own.
proof fn mapping_from(bytes: Seq<u8>, c: Cursor, v: Node, base: int, indent: int, depth: nat)
    requires
        v matches Node::Mapping(entries) && entries_plain(v, base, indent) && depth >= 1
            + tallest_value(entries, entries.len() as int),
        c.indent == indent,
        0 <= c.idx,
        at_text(bytes, c.idx, entries_rest(v, base, indent)),
        line_follows(bytes, c.idx + entries_rest(v, base, indent).len(), indent),
        c.expected.len() == 0,
        !in_flow(c.context()),
    ensures
        ({
            let entries = v->Mapping_0;
            let e = c.idx + entries_rest(v, base, indent).len();
            let r = value(bytes, c, depth);
            &&& r.result == Ok::<Node, Failure>(
                Node::Mapping(entries.subrange(base, entries.len() as int)),
            )
            &&& c.idx < r.cursor.idx < bytes.len()
            &&& left_at(bytes, e, c.expected, c.contexts, r.cursor)
        }),
    decreases v, 2 * count(v) + 3,
{
    marks();
    let entries = v->Mapping_0;
    assert(is_plain_leaf(entries[base].key) && is_value(entries[base].value, indent + 2));
    let key = leaf(entries[base].key);
    let first = entries[base].value;
    let behind = after_colon(first, indent as usize);
    let more = entries_from(v, base + 1, indent as usize);
    leaf_is_phrase(entries[base].key);
    assert(entries_rest(v, base, indent) == ((key + ":"@) + behind) + more);
    at_concat(bytes, c.idx, (key + ":"@) + behind, more);
    at_concat(bytes, c.idx, key + ":"@, behind);
    at_concat(bytes, c.idx, key, ":"@);
    let q = c.idx + key.len();
    assert(bytes[q + 0] == ":"@[0] as u8);
    let colon = c.at(q);
    let e0 = q + 1 + behind.len();
    tallest_value_bounds(entries, entries.len() as int, base);
    if base + 1 < entries.len() {
        entry_line_follows(bytes, e0, v, base + 1, indent);
        line_follows_further(bytes, e0, indent + 1, indent + 2);
    } else {
        assert(more =~= Seq::<char>::empty());
        line_follows_further(bytes, e0, indent, indent + 2);
    }
    value_behind_colon(bytes, colon, first, indent, (depth - 1) as nat);
    phrase_is_scalar(bytes, c, key);
    let t = ws_end(bytes, q + 1);
    let read = value(bytes, colon.at(t), (depth - 1) as nat);
    let begun = seq![Pair { key: entries[base].key, value: first }];
    assert(begun =~= entries.subrange(base, base + 1));
    entries_onward(bytes, read.cursor, v, base, base + 1, indent, (depth - 1) as nat, e0);
    let r = block_entries(bytes, read.cursor, begun, indent, (depth - 1) as nat);
    assert(entries_rest(v, base, indent).len() >= 2);
    reading_ends(bytes, c, entries_rest(v, base, indent).len() as int, r.cursor);
    mapping_begins(bytes, c, entries[base].key, first, q, depth);
}

/// A value that begins with a key and its colon is the block mapping that begins with
/// that key, where the key is read as it stands and a value is read behind the colon.
proof fn mapping_begins(bytes: Seq<u8>, c: Cursor, key: Node, first: Node, q: int, depth: nat)
    requires
        depth >= 1,
        0 <= c.idx < q,
        q + 1 < bytes.len(),
        c.expected.len() == 0,
        !in_flow(c.context()),
        crate::bytes::is_scalar_start(c.current(bytes), c.peek(bytes), c.context()),
        !(c.current(bytes) == DASH && c.ahead(bytes, 1) == Some(DASH)),
        begins_line(c.current(bytes)),
        bytes[q] == COLON,
        scalar(bytes, c.started(ParseContextKind::BlockMapping)) == Parsed::done(
            c.started(ParseContextKind::BlockMapping).at(q),
            key,
        ),
        c.started(ParseContextKind::BlockMapping).at(q).end_failure(
            ParseContextKind::BlockMapping,
        ) is None,
        c.started(ParseContextKind::BlockMapping).at(q).ended() == c.at(q),
        comment_end(bytes, ws_end(bytes, q + 1)) == ws_end(bytes, q + 1),
        value(bytes, c.at(q).at(ws_end(bytes, q + 1)), (depth - 1) as nat).result == Ok::<
            Node,
            Failure,
        >(first),
    ensures
        value(bytes, c, depth) == block_entries(
            bytes,
            value(bytes, c.at(q).at(ws_end(bytes, q + 1)), (depth - 1) as nat).cursor,
            seq![Pair { key, value: first }],
            c.indent,
            (depth - 1) as nat,
        ),
{
    let colon = c.at(q);
    let t = ws_end(bytes, q + 1);
    let read = value(bytes, colon.at(t), (depth - 1) as nat);
    let r = block_entries(
        bytes,
        read.cursor,
        seq![Pair { key, value: first }],
        c.indent,
        (depth - 1) as nat,
    );
    assert(ws_end(bytes, q) == q);
    assert(comment_end(bytes, q) == q);
    assert(colon.trimmed(bytes) == colon);
    assert(colon.at(q + 1).trimmed(bytes) == colon.at(t));
    assert(mapping_block(bytes, colon, key, (depth - 1) as nat) == r);
    assert(mapping_maybe(bytes, colon, key, (depth - 1) as nat) == r);
    assert(maybe_scalar(bytes, c, (depth - 1) as nat) == r);
    assert(value(bytes, c, depth) == r);
}

/// Where reading a text leaves the cursor lies behind where the text began, on a byte
/// of the input.
proof fn reading_ends(bytes: Seq<u8>, c: Cursor, len: int, x: Cursor)
    requires
        0 <= c.idx,
        2 <= len,
        c.idx + len <= bytes.len(),
        left_at(bytes, c.idx + len, c.expected, c.contexts, x),
    ensures
        c.idx < x.idx < bytes.len(),
{
    let e = c.idx + len;
    if e < bytes.len() {
        crate::cursor::ws_end_bounds(bytes, e);
    }
}

/// What one round of reading leaves behind an entry of a mapping of phrases: the entry
/// is added to those read, and the cursor stands on the line break that ends it or
/// where reading the collection under it left it.
pub open spec fn entry_is_read(
    bytes: Seq<u8>,
    c: Cursor,
    acc: Seq<Pair>,
    entry: Pair,
    indent: int,
    depth: nat,
    e: int,
) -> bool {
    match block_entry(bytes, c, acc, indent, depth) {
        Step::More(x, more) => {
            &&& more == acc.push(entry)
            &&& c.idx < x.idx < bytes.len()
            &&& x.expected == c.expected
            &&& x.contexts == c.contexts
            &&& (x.idx == e - 1 && is_linebreak(bytes[e - 1])) || (if e >= bytes.len() {
                x.idx == bytes.len() - 1
            } else {
                x.idx == ws_end(bytes, e) && x.indent == ws_end(bytes, e) - e
            })
        },
        Step::Stop(_) => false,
    }
}

/// An entry of a mapping of phrases is read from the first byte of its key.
proof fn entry_at(
    bytes: Seq<u8>,
    c: Cursor,
    acc: Seq<Pair>,
    entry: Pair,
    indent: int,
    depth: nat,
)
    requires
        0 <= indent <= usize::MAX - 2,
        is_plain_leaf(entry.key),
        is_value(entry.value, indent + 2),
        depth >= height(entry.value),
        c.indent == indent,
        0 <= c.idx,
        at_text(bytes, c.idx, entry_rest(entry, indent)),
        entry.value is Sequence || entry.value is Mapping ==> line_follows(
            bytes,
            c.idx + entry_rest(entry, indent).len(),
            indent + 2,
        ),
        c.expected.len() == 0,
        !in_flow(c.context()),
    ensures
        entry_is_read(bytes, c, acc, entry, indent, depth, c.idx + entry_rest(entry, indent).len()),
    decreases entry.value, 2 * count(entry.value) + 9,
{
    marks();
    let key = leaf(entry.key);
    let v = entry.value;
    let behind = after_colon(v, indent as usize);
    leaf_is_phrase(entry.key);
    assert(entry_rest(entry, indent) == (key + ":"@) + behind);
    at_concat(bytes, c.idx, key + ":"@, behind);
    at_concat(bytes, c.idx, key, ":"@);
    let q = c.idx + key.len();
    assert(bytes[q + 0] == ":"@[0] as u8);
    let keyed = c.expecting(COLON);
    let colon = c.at(q);
    value_behind_colon(bytes, colon, v, indent, depth);
    phrase_is_read(bytes, keyed, key, depth);
    assert(begins_line(bytes[c.idx + 0])) by {
        assert(bytes[c.idx + 0] == key[0] as u8);
    }
    let t = ws_end(bytes, q + 1);
    let read = value(bytes, colon.at(t), depth);
    assert(ws_end(bytes, q) == q);
    assert(comment_end(bytes, q) == q);
    assert(keyed.at(q).popped().expected =~= c.expected);
    entry_round(bytes, c, acc, entry, indent, depth, q, read);
}

/// One round of reading the entries of a block mapping gives an entry where its key
/// and its value are read as they stand.
proof fn entry_round(
    bytes: Seq<u8>,
    c: Cursor,
    acc: Seq<Pair>,
    entry: Pair,
    indent: int,
    depth: nat,
    q: int,
    read: Parsed,
)
    requires
        0 <= c.idx < q,
        q + 1 < bytes.len(),
        c.indent >= indent,
        begins_line(bytes[c.idx]),
        bytes[q] == COLON,
        value(bytes, c.expecting(COLON), depth) == Parsed::done(
            c.expecting(COLON).at(q),
            entry.key,
        ),
        read == value(bytes, c.at(q).at(ws_end(bytes, q + 1)), depth),
        read.result == Ok::<Node, Failure>(entry.value),
    ensures
        block_entry(bytes, c, acc, indent, depth) == Step::More(read.cursor, acc.push(entry)),
{
    let keyed = c.expecting(COLON);
    assert(ws_end(bytes, q) == q);
    assert(comment_end(bytes, q) == q);
    assert(keyed.at(q).trimmed(bytes) == keyed.at(q));
    assert(keyed.at(q).popped().expected =~= c.expected);
    assert(keyed.at(q).popped() == c.at(q));
    assert(Pair { key: entry.key, value: entry.value } == entry);
}

/// The entries of a mapping of phrases are read from the first byte of the key of one
/// of them on, where the entries before it, from the one at `base` on, have been read.
proof fn entries_at(
    bytes: Seq<u8>,
    c: Cursor,
    parent: Node,
    base: int,
    k: int,
    indent: int,
    depth: nat,
)
    requires
        parent matches Node::Mapping(entries) && entries_plain(parent, base, indent) && base <= k
            < entries.len() && depth >= tallest_value(entries, entries.len() as int),
        depth >= 1,
        c.indent == indent,
        0 <= c.idx,
        at_text(bytes, c.idx, entries_rest(parent, k, indent)),
        line_follows(bytes, c.idx + entries_rest(parent, k, indent).len(), indent),
        c.expected.len() == 0,
        !in_flow(c.context()),
    ensures
        ({
            let entries = parent->Mapping_0;
            let e = c.idx + entries_rest(parent, k, indent).len();
            let r = block_entries(bytes, c, entries.subrange(base, k), indent, depth);
            &&& r.result == Ok::<Node, Failure>(
                Node::Mapping(entries.subrange(base, entries.len() as int)),
            )
            &&& left_at(bytes, e, c.expected, c.contexts, r.cursor)
        }),
    decreases parent, 2 * (count(parent) - k) + 1,
{
    let entries = parent->Mapping_0;
    let acc = entries.subrange(base, k);
    let entry = entries[k];
    assert(is_plain_leaf(entries[k].key) && is_value(entries[k].value, indent + 2));
    if k + 1 < entries.len() {
        assert(is_plain_leaf(entries[k + 1].key));
    }
    let rest = entry_rest(entry, indent);
    let more = entries_from(parent, k + 1, indent as usize);
    assert(entries_rest(parent, k, indent) == rest + more);
    at_concat(bytes, c.idx, rest, more);
    let e_k = c.idx + rest.len();
    tallest_value_bounds(entries, entries.len() as int, k);
    if k + 1 < entries.len() {
        entry_line_follows(bytes, e_k, parent, k + 1, indent);
        line_follows_further(bytes, e_k, indent + 1, indent + 2);
    } else {
        assert(more =~= Seq::<char>::empty());
        line_follows_further(bytes, e_k, indent, indent + 2);
    }
    assert(acc.push(entry) =~= entries.subrange(base, k + 1));
    entry_at(bytes, c, acc, entry, indent, depth);
    let x = block_entry(bytes, c, acc, indent, depth)->More_0;
    entries_onward(bytes, x, parent, base, k + 1, indent, depth, e_k);
}

/// Reading the entries of a block mapping ends on the last byte of the input, and
/// before a line that is indented less than the mapping.
proof fn entries_end(bytes: Seq<u8>, y: Cursor, acc: Seq<Pair>, indent: int, depth: nat)
    requires
        0 <= y.idx < bytes.len(),
        y.idx == bytes.len() - 1 || (y.indent < indent && !is_ws(bytes[y.idx]) && !is_linebreak(
            bytes[y.idx],
        ) && bytes[y.idx] != HASH),
    ensures
        block_entries(bytes, y, acc, indent, depth) == Parsed::done(y, Node::Mapping(acc)),
{
    assert(block_entry(bytes, y, acc, indent, depth) == Step::<Pair>::Stop(
        Parsed::done(y, Node::Mapping(acc)),
    ));
}

/// The cursor from which reading goes on behind an entry or an item that ends before
/// offset `e`: the first byte of the next line that is no blank, with the blanks
/// before it counted.
pub open spec fn next_line(bytes: Seq<u8>, x: Cursor, e: int) -> Cursor {
    x.at(ws_end(bytes, e)).indented(ws_end(bytes, e) - e)
}

/// The entries of a mapping of phrases are read on behind one of them: from the line
/// break that ends it, or from where reading the collection under it left the cursor.
proof fn entries_onward(
    bytes: Seq<u8>,
    x: Cursor,
    parent: Node,
    base: int,
    k: int,
    indent: int,
    depth: nat,
    e: int,
)
    requires
        parent matches Node::Mapping(entries) && entries_plain(parent, base, indent) && base < k
            <= entries.len() && depth >= tallest_value(entries, entries.len() as int) && (k
            < entries.len() ==> at_text(bytes, e, entries_from(parent, k, indent as usize))
            && line_follows(
            bytes,
            e + entries_from(parent, k, indent as usize).len(),
            indent,
        )) && (k == entries.len() ==> line_follows(bytes, e, indent)),
        depth >= 1,
        0 < e <= bytes.len(),
        x.expected.len() == 0,
        !in_flow(x.context()),
        (x.idx == e - 1 && is_linebreak(bytes[e - 1])) || (if e >= bytes.len() {
            x.idx == bytes.len() - 1
        } else {
            x.idx == ws_end(bytes, e) && x.indent == ws_end(bytes, e) - e
        }),
    ensures
        ({
            let entries = parent->Mapping_0;
            let end = if k < entries.len() {
                e + entries_from(parent, k, indent as usize).len()
            } else {
                e
            };
            let r = block_entries(bytes, x, entries.subrange(base, k), indent, depth);
            &&& r.result == Ok::<Node, Failure>(
                Node::Mapping(entries.subrange(base, entries.len() as int)),
            )
            &&& left_at(bytes, end, x.expected, x.contexts, r.cursor)
        }),
    decreases parent, 2 * (count(parent) - k) + 2,
{
    let entries = parent->Mapping_0;
    let acc = entries.subrange(base, k);
    if k < entries.len() {
        assert(is_plain_leaf(entries[k].key));
        entry_line_follows(bytes, e, parent, k, indent);
    }
    if e == bytes.len() {
        entries_end(bytes, x, acc, indent, depth);
    } else {
        let y = next_line(bytes, x, e);
        crate::cursor::ws_end_bounds(bytes, e);
        entries_reach_line(bytes, x, acc, indent, depth, e);
        if k < entries.len() {
            entries_at(bytes, y, parent, base, k, indent, depth);
        } else {
            entries_end(bytes, y, acc, indent, depth);
        }
    }
}

/// Behind an entry that ends before offset `e`, where a line follows, reading the
/// entries of a block mapping goes on at the first byte of that line that is no blank.
proof fn entries_reach_line(
    bytes: Seq<u8>,
    x: Cursor,
    acc: Seq<Pair>,
    indent: int,
    depth: nat,
    e: int,
)
    requires
        0 < e < bytes.len(),
        ws_end(bytes, e) + 1 < bytes.len(),
        !is_linebreak(bytes[ws_end(bytes, e)]),
        !is_ws(bytes[ws_end(bytes, e)]),
        (x.idx == e - 1 && is_linebreak(bytes[e - 1])) || (x.idx == ws_end(bytes, e) && x.indent
            == ws_end(bytes, e) - e),
    ensures
        block_entries(bytes, x, acc, indent, depth) == block_entries(
            bytes,
            next_line(bytes, x, e),
            acc,
            indent,
            depth,
        ),
{
    let q = ws_end(bytes, e);
    crate::cursor::ws_end_bounds(bytes, e);
    if x.idx == q && x.indent == q - e {
        assert(x == next_line(bytes, x, e));
    } else {
        if q > e {
            assert(is_ws(bytes[e]));
        }
        entries_pass_line_break(bytes, x, acc, indent, depth);
    }
}

/// What one round of reading leaves behind an item of a sequence of phrases: the item
/// is added to those read, and the cursor stands on the line break that ends it or
/// where reading the collection in it left it.
pub open spec fn item_is_read(
    bytes: Seq<u8>,
    c: Cursor,
    acc: Seq<Node>,
    el: Node,
    indent: int,
    depth: nat,
    e: int,
) -> bool {
    match block_item(bytes, c, acc, indent, depth) {
        Step::More(x, more) => {
            &&& more == acc.push(el)
            &&& c.idx < x.idx < bytes.len()
            &&& x.expected == c.expected
            &&& x.contexts == c.contexts
            &&& (x.idx == e - 1 && is_linebreak(bytes[e - 1])) || (if e >= bytes.len() {
                x.idx == bytes.len() - 1
            } else {
                x.idx == ws_end(bytes, e) && x.indent == ws_end(bytes, e) - e
            })
        },
        Step::Stop(_) => false,
    }
}

/// An item that is a phrase is read.
proof fn word_item_at(
    bytes: Seq<u8>,
    c: Cursor,
    acc: Seq<Node>,
    el: Node,
    indent: int,
    depth: nat,
)
    requires
        is_plain_leaf(el),
        depth >= 1,
        c.indent == indent,
        0 <= c.idx,
        at_text(bytes, c.idx, item_rest(el, indent)),
        c.contexts.len() > 0,
        closes(ParseContextKind::Block, c.contexts.last()),
    ensures
        item_is_read(bytes, c, acc, el, indent, depth, c.idx + item_rest(el, indent).len()),
{
    marks();
    let body = item_rest(el, indent);
    let word = leaf(el);
    leaf_is_phrase(el);
    assert(body == "-"@ + ((" "@ + word) + "\n"@));
    at_concat(bytes, c.idx, "-"@, (" "@ + word) + "\n"@);
    at_concat(bytes, c.idx + 1, " "@ + word, "\n"@);
    at_concat(bytes, c.idx + 1, " "@, word);
    assert(bytes[c.idx + 0] == "-"@[0] as u8);
    assert(bytes[c.idx + 1 + 0] == " "@[0] as u8);
    let q = c.idx + 2 + word.len();
    assert(bytes[q + 0] == "\n"@[0] as u8);
    let start = c.at(c.idx + 2).indented(indent + 2);
    phrase_is_read(bytes, start, word, depth);
}

/// An item that is a sequence of phrases is read.
proof fn sequence_item_at(
    bytes: Seq<u8>,
    c: Cursor,
    acc: Seq<Node>,
    el: Node,
    indent: int,
    depth: nat,
)
    requires
        0 <= indent,
        is_plain(el, indent + 2),
        el is Sequence,
        depth >= height(el),
        c.indent == indent,
        0 <= c.idx,
        at_text(bytes, c.idx, item_rest(el, indent)),
        line_follows(bytes, c.idx + item_rest(el, indent).len(), indent + 2),
        c.expected.len() == 0,
        c.contexts.len() > 0,
        closes(ParseContextKind::Block, c.contexts.last()),
    ensures
        item_is_read(bytes, c, acc, el, indent, depth, c.idx + item_rest(el, indent).len()),
    decreases el, 2 * count(el) + 6,
{
    marks();
    let body = item_rest(el, indent);
    let below = block(el, (indent + 2) as usize);
    assert(body == "-"@ + ("\n"@ + below));
    at_concat(bytes, c.idx, "-"@, "\n"@ + below);
    at_concat(bytes, c.idx + 1, "\n"@, below);
    assert(bytes[c.idx + 0] == "-"@[0] as u8);
    assert(bytes[c.idx + 1 + 0] == "\n"@[0] as u8);
    block_is(el, indent + 2);
    let blanks = repeated(" "@, (indent + 2) as nat);
    let inner = inner_text(el, indent + 2);
    at_concat(bytes, c.idx + 2, blanks, inner);
    repeated_len(" "@, (indent + 2) as nat);
    first_of_collection(el, indent + 2);
    assert(bytes[c.idx + 2 + (indent + 2) + 0] == inner[0] as u8);
    blanks_end(bytes, c.idx + 2, (indent + 2) as nat);
    blanks_front((indent + 2) as nat);
    assert(bytes[c.idx + 2 + 0] == blanks[0] as u8);
    let lower = c.at(c.idx + 2).indented(0);
    let start = c.at(c.idx + 2 + indent + 2).indented(indent + 2);
    assert(lower.indent_chomped(bytes) == start);
    sequence_at(bytes, start, el, indent + 2, depth);
}

/// An item that is a mapping of phrases is read.
proof fn mapping_item_at(
    bytes: Seq<u8>,
    c: Cursor,
    acc: Seq<Node>,
    el: Node,
    indent: int,
    depth: nat,
)
    requires
        0 <= indent,
        is_plain(el, indent + 2),
        el is Mapping,
        depth >= height(el),
        c.indent == indent,
        0 <= c.idx,
        at_text(bytes, c.idx, item_rest(el, indent)),
        line_follows(bytes, c.idx + item_rest(el, indent).len(), indent + 2),
        c.expected.len() == 0,
        c.contexts.len() > 0,
        closes(ParseContextKind::Block, c.contexts.last()),
    ensures
        item_is_read(bytes, c, acc, el, indent, depth, c.idx + item_rest(el, indent).len()),
    decreases el, 2 * count(el) + 6,
{
    marks();
    let body = item_rest(el, indent);
    let inner = inner_text(el, indent + 2);
    assert(body == "-"@ + (" "@ + inner));
    at_concat(bytes, c.idx, "-"@, " "@ + inner);
    at_concat(bytes, c.idx + 1, " "@, inner);
    assert(bytes[c.idx + 0] == "-"@[0] as u8);
    assert(bytes[c.idx + 1 + 0] == " "@[0] as u8);
    first_of_collection(el, indent + 2);
    let start = c.at(c.idx + 2).indented(indent + 2);
    mapping_at(bytes, start, el, indent + 2, depth);
}

/// The items of a sequence of phrases are read from the `-` of one of them on, where
/// the items before it have been read.
proof fn items_at(bytes: Seq<u8>, c: Cursor, parent: Node, k: int, indent: int, depth: nat)
    requires
        parent matches Node::Sequence(items) && is_plain(parent, indent) && 0 <= k < items.len()
            && depth >= tallest(items, items.len() as int),
        depth >= 1,
        c.indent == indent,
        0 <= c.idx,
        at_text(bytes, c.idx, items_rest(parent, k, indent)),
        line_follows(bytes, c.idx + items_rest(parent, k, indent).len(), indent),
        c.expected.len() == 0,
        c.contexts.len() > 0,
        closes(ParseContextKind::Block, c.contexts.last()),
    ensures
        ({
            let items = parent->Sequence_0;
            let e = c.idx + items_rest(parent, k, indent).len();
            let r = block_items(bytes, c, items.subrange(0, k), indent, depth);
            &&& r.result == Ok::<Node, Failure>(parent)
            &&& left_at(bytes, e, c.expected, c.contexts.drop_last(), r.cursor)
        }),
    decreases parent, 2 * (count(parent) - k) + 1,
{
    let items = parent->Sequence_0;
    let acc = items.subrange(0, k);
    let el = items[k];
    let body = item_rest(el, indent);
    let more = items_from(parent, k + 1, indent as usize);
    assert(is_plain(el, indent + 2));
    assert(items_rest(parent, k, indent) == body + more);
    at_concat(bytes, c.idx, body, more);
    let e_k = c.idx + body.len();
    tallest_bounds(items, items.len() as int, k);
    if k + 1 < items.len() {
        item_line_follows(bytes, e_k, parent, k + 1, indent);
        line_follows_further(bytes, e_k, indent + 1, indent + 2);
    } else {
        assert(more =~= Seq::<char>::empty());
        line_follows_further(bytes, e_k, indent, indent + 2);
    }
    let grown = acc.push(el);
    assert(grown =~= items.subrange(0, k + 1));
    if el is Sequence {
        sequence_item_at(bytes, c, acc, el, indent, depth);
    } else if el is Mapping {
        mapping_item_at(bytes, c, acc, el, indent, depth);
    } else {
        word_item_at(bytes, c, acc, el, indent, depth);
    }
    let x = block_item(bytes, c, acc, indent, depth)->More_0;
    items_onward(bytes, x, parent, k + 1, indent, depth, e_k);
}

/// Reading the items of a block sequence ends on the last byte of the input, and
/// before a line that is indented less than the sequence.
proof fn items_end(bytes: Seq<u8>, y: Cursor, acc: Seq<Node>, indent: int, depth: nat)
    requires
        0 <= y.idx < bytes.len(),
        y.idx == bytes.len() - 1 || (y.indent < indent && !is_ws(bytes[y.idx]) && !is_linebreak(
            bytes[y.idx],
        ) && bytes[y.idx] != HASH),
        y.contexts.len() > 0,
        closes(ParseContextKind::Block, y.contexts.last()),
    ensures
        block_items(bytes, y, acc, indent, depth) == Parsed::done(y.ended(), Node::Sequence(acc)),
{
    assert(block_item(bytes, y, acc, indent, depth) == Step::<Node>::Stop(
        y.closed(ParseContextKind::Block, Node::Sequence(acc)),
    ));
}

/// Behind an item that ends before offset `e`, where a line follows, reading the
/// items of a block sequence goes on at the first byte of that line that is no blank.
proof fn items_reach_line(
    bytes: Seq<u8>,
    x: Cursor,
    acc: Seq<Node>,
    indent: int,
    depth: nat,
    e: int,
)
    requires
        0 < e < bytes.len(),
        ws_end(bytes, e) + 1 < bytes.len(),
        !is_linebreak(bytes[ws_end(bytes, e)]),
        !is_ws(bytes[ws_end(bytes, e)]),
        (x.idx == e - 1 && is_linebreak(bytes[e - 1])) || (x.idx == ws_end(bytes, e) && x.indent
            == ws_end(bytes, e) - e),
    ensures
        block_items(bytes, x, acc, indent, depth) == block_items(
            bytes,
            next_line(bytes, x, e),
            acc,
            indent,
            depth,
        ),
{
    let q = ws_end(bytes, e);
    crate::cursor::ws_end_bounds(bytes, e);
    if x.idx == q && x.indent == q - e {
        assert(x == next_line(bytes, x, e));
    } else {
        if q > e {
            assert(is_ws(bytes[e]));
        }
        items_pass_line_break(bytes, x, acc, indent, depth);
    }
}

/// The items of a sequence of phrases are read on behind one of them: from the line
/// break that ends it, or from where reading the collection in it left the cursor.
proof fn items_onward(
    bytes: Seq<u8>,
    x: Cursor,
    parent: Node,
    k: int,
    indent: int,
    depth: nat,
    e: int,
)
    requires
        parent matches Node::Sequence(items) && is_plain(parent, indent) && 1 <= k <= items.len()
            && depth >= tallest(items, items.len() as int) && (k < items.len() ==> at_text(
            bytes,
            e,
            items_from(parent, k, indent as usize),
        ) && line_follows(bytes, e + items_from(parent, k, indent as usize).len(), indent)) && (k
            == items.len() ==> line_follows(bytes, e, indent)),
        depth >= 1,
        0 < e <= bytes.len(),
        x.expected.len() == 0,
        x.contexts.len() > 0,
        closes(ParseContextKind::Block, x.contexts.last()),
        (x.idx == e - 1 && is_linebreak(bytes[e - 1])) || (if e >= bytes.len() {
            x.idx == bytes.len() - 1
        } else {
            x.idx == ws_end(bytes, e) && x.indent == ws_end(bytes, e) - e
        }),
    ensures
        ({
            let items = parent->Sequence_0;
            let end = if k < items.len() {
                e + items_from(parent, k, indent as usize).len()
            } else {
                e
            };
            let r = block_items(bytes, x, items.subrange(0, k), indent, depth);
            &&& r.result == Ok::<Node, Failure>(parent)
            &&& left_at(bytes, end, x.expected, x.contexts.drop_last(), r.cursor)
        }),
    decreases parent, 2 * (count(parent) - k) + 2,
{
    let items = parent->Sequence_0;
    let acc = items.subrange(0, k);
    if k < items.len() {
        item_line_follows(bytes, e, parent, k, indent);
    } else {
        assert(acc =~= items);
    }
    if e == bytes.len() {
        items_end(bytes, x, acc, indent, depth);
    } else {
        let y = next_line(bytes, x, e);
        crate::cursor::ws_end_bounds(bytes, e);
        items_reach_line(bytes, x, acc, indent, depth, e);
        if k < items.len() {
            items_at(bytes, y, parent, k, indent, depth);
        } else {
            items_end(bytes, y, acc, indent, depth);
        }
    }
}

/// Two texts of ASCII characters, one behind the other, are a text of ASCII
/// characters.
proof fn ascii_joined(a: Seq<char>, b: Seq<char>)
    requires
        is_ascii_chars(a),
        is_ascii_chars(b),
    ensures
        is_ascii_chars(a + b),
{
    let whole = a + b;
    assert forall|i: int| 0 <= i < whole.len() implies '\0' <= #[trigger] whole[i] <= '\u{7f}' by {
        if i < a.len() {
            assert(whole[i] == a[i]);
        } else {
            assert(whole[i] == b[i - a.len()]);
        }
    }
}

/// Blanks and the four marks are ASCII characters.
proof fn ascii_marks(n: nat)
    ensures
        is_ascii_chars(repeated(" "@, n)),
        is_ascii_chars(" "@),
        is_ascii_chars("-"@),
        is_ascii_chars(":"@),
        is_ascii_chars("\n"@),
{
    reveal_strlit(" ");
    reveal_strlit("-");
    reveal_strlit(":");
    reveal_strlit("\n");
    assert forall|i: int| 0 <= i < repeated(" "@, n).len() implies '\0' <= #[trigger] repeated(
        " "@,
        n,
    )[i] <= '\u{7f}' by {
        repeated_len(" "@, n);
        blanks_all(n, i);
    }
}

/// A value of phrases is written in ASCII characters.
proof fn plain_is_ascii(v: Node, indent: int)
    requires
        is_plain(v, indent),
    ensures
        is_ascii_chars(block(v, indent as usize)),
    decreases v, count(v) + 1,
{
    match v {
        Node::Sequence(_) => {
            items_are_ascii(v, 0, indent);
        },
        Node::Mapping(_) => {
            entries_are_ascii(v, 0, 0, indent);
        },
        _ => {
            leaf_is_phrase(v);
        },
    }
}

/// What stands behind the colon of a key in a mapping of phrases is written in ASCII
/// characters.
proof fn after_colon_is_ascii(v: Node, indent: int)
    requires
        is_value(v, indent + 2),
        0 <= indent <= usize::MAX - 2,
    ensures
        is_ascii_chars(after_colon(v, indent as usize)),
    decreases v, count(v) + 3,
{
    ascii_marks(0);
    if is_plain(v, indent + 2) {
        after_colon_is(v, indent);
        if v is Sequence || v is Mapping {
            block_is(v, indent + 2);
            plain_is_ascii(v, indent + 2);
            ascii_joined("\n"@, block(v, (indent + 2) as usize));
        } else {
            leaf_is_phrase(v);
            ascii_joined(" "@, leaf(v));
            ascii_joined(" "@ + leaf(v), "\n"@);
        }
    } else {
        after_colon_tagged_is(v, indent);
        tagged_is_ascii(v, indent + 2);
        tag_marks();
        ascii_joined(" "@, "!"@ + tag_text(v, indent + 2));
    }
}

/// A tagged value of phrases is written in ASCII characters.
proof fn tagged_is_ascii(v: Node, indent: int)
    requires
        is_tagged(v, indent),
    ensures
        is_ascii_chars("!"@ + tag_text(v, indent)),
    decreases v, count(v) + 2,
{
    let entries = v->Mapping_0;
    let name = tag_of(v);
    tag_marks();
    ascii_marks(0);
    if holds_value(entries) {
        leaf_is_phrase(entries[1].value);
        ascii_joined(" "@, leaf(entries[1].value));
        ascii_joined(" "@ + leaf(entries[1].value), "\n"@);
    } else if entries.len() == 1 {
    } else {
        entries_are_ascii(v, 1, 1, indent);
        ascii_joined("\n"@, entries_from(v, 1, indent as usize));
    }
    ascii_joined(name, tagged_rest(v, indent));
    ascii_joined("!"@, tag_text(v, indent));
}

/// The entries of a mapping of phrases are written in ASCII characters.
proof fn entries_are_ascii(parent: Node, base: int, k: int, indent: int)
    requires
        parent matches Node::Mapping(entries) && entries_plain(parent, base, indent) && base <= k
            <= entries.len(),
    ensures
        is_ascii_chars(entries_from(parent, k, indent as usize)),
        k < parent->Mapping_0.len() ==> is_ascii_chars(entries_rest(parent, k, indent)),
    decreases parent, count(parent) - k,
{
    let entries = parent->Mapping_0;
    if k < entries.len() {
        let e = entries[k];
        ascii_marks(indent as nat);
        leaf_is_phrase(e.key);
        after_colon_is_ascii(e.value, indent);
        entries_are_ascii(parent, base, k + 1, indent);
        entries_from_is(parent, k, indent);
        ascii_joined(leaf(e.key), ":"@);
        ascii_joined(leaf(e.key) + ":"@, after_colon(e.value, indent as usize));
        ascii_joined(entry_rest(e, indent), entries_from(parent, k + 1, indent as usize));
        ascii_joined(repeated(" "@, indent as nat), entries_rest(parent, k, indent));
    }
}

/// The items of a sequence of phrases are written in ASCII characters.
proof fn items_are_ascii(parent: Node, k: int, indent: int)
    requires
        parent matches Node::Sequence(items) && is_plain(parent, indent) && 0 <= k <= items.len(),
    ensures
        is_ascii_chars(items_from(parent, k, indent as usize)),
    decreases parent, count(parent) - k,
{
    let items = parent->Sequence_0;
    if k < items.len() {
        let el = items[k];
        assert(is_plain(el, indent + 2));
        ascii_marks(indent as nat);
        items_are_ascii(parent, k + 1, indent);
        items_from_is(parent, k, indent);
        match el {
            Node::Sequence(_) => {
                plain_is_ascii(el, indent + 2);
                ascii_joined("\n"@, block(el, (indent + 2) as usize));
                ascii_joined("-"@, "\n"@ + block(el, (indent + 2) as usize));
            },
            Node::Mapping(_) => {
                entries_are_ascii(el, 0, 0, indent + 2);
                ascii_joined(" "@, entries_rest(el, 0, indent + 2));
                ascii_joined("-"@, " "@ + entries_rest(el, 0, indent + 2));
            },
            _ => {
                leaf_is_phrase(el);
                ascii_joined(" "@, leaf(el));
                ascii_joined(" "@ + leaf(el), "\n"@);
                ascii_joined("-"@, " "@ + leaf(el) + "\n"@);
            },
        }
        ascii_joined(item_rest(el, indent), items_from(parent, k + 1, indent as usize));
        ascii_joined(repeated(" "@, indent as nat), items_rest(parent, k, indent));
    }
}

/// What is printed is read back: where a value is made of phrases alone, tagged or
/// not, the text that `to_string` gives for it is read by `parse` as the same value,
/// so long as the limit on nesting is no less than the height of the value. A tag
/// that holds nothing is left out where it is the whole value: it is printed without
/// a value behind it.
pub proof fn plain_round_trip(v: Node, max_depth: nat)
    requires
        is_value(v, 0),
        is_tagged(v, 0) ==> count(v) >= 2,
        max_depth >= height(v),
    ensures
        document(encode_utf8(block(v, 0)), max_depth).result == Ok::<Node, Failure>(v),
{
    let text = block(v, 0);
    let bytes = encode_utf8(text);
    let start = Cursor { idx: 0, indent: 0, expected: Seq::empty(), contexts: Seq::empty() };
    assert(repeated(" "@, 0) =~= Seq::<char>::empty());
    if is_tagged(v, 0) {
        tag_marks();
        tagged_is_ascii(v, 0);
        block_tagged_is(v);
        is_ascii_chars_encode_utf8(text);
        at_concat(bytes, 0, "!"@, tag_text(v, 0));
        assert(at_text(bytes, 0, text));
        assert(bytes[0int] == "!"@[0] as u8);
        value_at_tag(bytes, start, v, 0, max_depth);
    } else if v is Sequence || v is Mapping {
        plain_is_ascii(v, 0);
        is_ascii_chars_encode_utf8(text);
        block_is(v, 0);
        assert(text =~= inner_text(v, 0));
        assert(at_text(bytes, 0, inner_text(v, 0)));
        collection_at(bytes, start, v, 0, max_depth);
    } else {
        plain_is_ascii(v, 0);
        is_ascii_chars_encode_utf8(text);
        leaf_is_phrase(v);
        assert(at_text(bytes, 0, text));
        phrase_is_read(bytes, start, text, max_depth);
    }
}

/// A tagged value that holds a leaf or further entries is printed as `!`, the tag and
/// what stands behind it.
proof fn block_tagged_is(v: Node)
    requires
        is_tagged(v, 0),
        count(v) >= 2,
    ensures
        block(v, 0) == "!"@ + tag_text(v, 0),
{
    let entries = v->Mapping_0;
    assert(tag_name(v) == Some(tag_of(v)));
    assert(repeated(" "@, 0) =~= Seq::<char>::empty());
    if holds_value(entries) {
        assert(is_scalar_node(entries[1].value));
        assert(block(entries[1].value, 0) == leaf(entries[1].value));
    }
    assert(block(v, 0) =~= "!"@ + tag_text(v, 0));
}

/// The name of the tag that a tagged value stands for.
pub open spec fn tag_of(v: Node) -> Seq<char> {
    v->Mapping_0[0].value->Scalar_0
}

/// What stands behind the name of the tag of a tagged value: its one value on the
/// same line, `{}` where it holds nothing, or its further entries on the lines below
/// at `indent`.
pub open spec fn tagged_rest(v: Node, indent: int) -> Seq<char> {
    let entries = v->Mapping_0;
    if holds_value(entries) {
        " "@ + leaf(entries[1].value) + "\n"@
    } else if entries.len() == 1 {
        " {}\n"@
    } else {
        "\n"@ + entries_from(v, 1, indent as usize)
    }
}

/// A tagged value behind its `!`: the name of the tag and what stands behind it.
pub open spec fn tag_text(v: Node, indent: int) -> Seq<char> {
    tag_of(v) + tagged_rest(v, indent)
}

/// The bytes of the marks of a tag.
proof fn tag_marks()
    ensures
        "!"@.len() == 1 && "!"@[0] as u8 == 33,
        " !"@ == " "@ + "!"@,
        " {}\n"@.len() == 4 && " {}\n"@[0] as u8 == 32 && " {}\n"@[1] as u8 == 123 && " {}\n"@[2]
            as u8 == 125 && " {}\n"@[3] as u8 == 10,
        is_ascii_chars("!"@),
        is_ascii_chars(" {}\n"@),
{
    reveal_strlit("!");
    reveal_strlit(" ");
    reveal_strlit(" !");
    reveal_strlit(" {}\n");
    assert(" !"@ =~= " "@ + "!"@);
}

/// Behind its colon a tagged value follows as a blank, `!` and the tag.
proof fn after_colon_tagged_is(v: Node, indent: int)
    requires
        is_tagged(v, indent + 2),
        0 <= indent <= usize::MAX - 2,
    ensures
        after_colon(v, indent as usize) == " "@ + ("!"@ + tag_text(v, indent + 2)),
{
    tag_marks();
    let entries = v->Mapping_0;
    assert(further(indent as usize) == indent + 2);
    assert(tag_name(v) == Some(tag_of(v)));
    if holds_value(entries) {
        assert(is_scalar_node(entries[1].value));
        assert(block(entries[1].value, indent as usize) == leaf(entries[1].value));
    }
    assert(after_colon(v, indent as usize) =~= " "@ + ("!"@ + tag_text(v, indent + 2)));
}

/// The name of a tag is read up to the blank or the line break behind it.
proof fn tag_scan_names(bytes: Seq<u8>, i: int, end: int)
    requires
        0 <= i <= end < bytes.len(),
        forall|k: int| i <= k < end ==> is_tag_char(#[trigger] bytes[k]),
        is_ws(bytes[end]) || is_linebreak(bytes[end]),
    ensures
        tag_scan(bytes, i, 0) == (end, None::<Failure>),
    decreases end - i,
{
    if i < end {
        assert(is_tag_char(bytes[i]));
        tag_scan_names(bytes, i + 1, end);
    }
}

/// A tag whose name stands in the input before a blank or a line break is read, and
/// the cursor is left behind the blanks that follow the name.
proof fn tag_is_read(bytes: Seq<u8>, c: Cursor, name: Seq<char>)
    requires
        0 <= c.idx,
        is_tag_name(name),
        at_text(bytes, c.idx + 1, name),
        c.idx + 1 + name.len() < bytes.len(),
        is_ws(bytes[c.idx + 1 + name.len()]) || is_linebreak(bytes[c.idx + 1 + name.len()]),
    ensures
        tag(bytes, c) == (
            c.at(ws_end(bytes, c.idx + 1 + name.len())),
            Ok::<Seq<char>, Failure>(name),
        ),
        !ends_input(bytes, c, name),
{
    let start = c.idx + 1;
    let n = name.len() as int;
    let end = start + n;
    assert forall|k: int| start <= k < end implies is_tag_char(#[trigger] bytes[k]) by {
        assert(bytes[start + (k - start)] == name[k - start] as u8);
    }
    tag_scan_names(bytes, start, end);
    is_ascii_chars_encode_utf8(name);
    encode_utf8_decode_utf8(name);
    assert(text_between(bytes, start, end) == Some(name)) by {
        assert(bytes.subrange(start, end) =~= encode_utf8(name)) by {
            assert forall|k: int| 0 <= k < n implies bytes.subrange(start, end)[k]
                == encode_utf8(name)[k] by {
                assert(bytes[start + k] == name[k] as u8);
            }
        }
        let b0 = bytes[start];
        let bq = bytes[end];
        assert(bytes[start + 0] == name[0] as u8);
        assert(b0 < 128 && bq < 128);
        assert(!(b0 & 0xC0 == 0x80)) by (bit_vector)
            requires
                b0 < 128,
        ;
        assert(!(bq & 0xC0 == 0x80)) by (bit_vector)
            requires
                bq < 128,
        ;
    }
}

/// `{}` before a line break is read as the mapping that holds nothing, and the cursor
/// is left on the line break.
proof fn empty_mapping_is_read(bytes: Seq<u8>, c: Cursor, depth: nat)
    requires
        depth >= 1,
        0 <= c.idx,
        c.idx + 2 < bytes.len(),
        bytes[c.idx] == 123,
        bytes[c.idx + 1] == 125,
        is_linebreak(bytes[c.idx + 2]),
    ensures
        value(bytes, c, depth) == Parsed::done(c.at(c.idx + 2), Node::Mapping(Seq::empty())),
{
    let open = c.expecting(125);
    let inner = open.at(c.idx + 1);
    let d = (depth - 1) as nat;
    assert(flow_entry(bytes, inner, Seq::empty(), d) == Step::<Pair>::Stop(
        Parsed::done(inner.bumped(bytes), Node::Mapping(Seq::empty())),
    ));
    assert(flow_entries(bytes, inner, Seq::empty(), d) == Parsed::done(
        inner.bumped(bytes),
        Node::Mapping(Seq::empty()),
    ));
    assert(flow_mapping(bytes, open, d) == Parsed::done(
        inner.bumped(bytes),
        Node::Mapping(Seq::empty()),
    ));
    let behind = inner.bumped(bytes).popped();
    assert(behind.expected =~= c.expected);
    assert(behind == c.at(c.idx + 2));
    assert(ws_end(bytes, c.idx + 2) == c.idx + 2);
    assert(comment_end(bytes, c.idx + 2) == c.idx + 2);
    assert(mapping_maybe(bytes, behind, Node::Mapping(Seq::empty()), d) == Parsed::done(
        behind,
        Node::Mapping(Seq::empty()),
    ));
}

/// The further entries of a tagged mapping, which stand on the lines below a line
/// break, are read from that line break on as a mapping of their own.
proof fn tail_below(bytes: Seq<u8>, c: Cursor, v: Node, indent: int, depth: nat)
    requires
        v matches Node::Mapping(entries) && entries_plain(v, 1, indent) && depth >= 1
            + tallest_value(entries, entries.len() as int),
        0 <= c.idx < bytes.len(),
        is_linebreak(bytes[c.idx]),
        at_text(bytes, c.idx + 1, entries_from(v, 1, indent as usize)),
        line_follows(bytes, c.idx + 1 + entries_from(v, 1, indent as usize).len(), indent),
        c.expected.len() == 0,
        !in_flow(c.context()),
    ensures
        ({
            let entries = v->Mapping_0;
            let e = c.idx + 1 + entries_from(v, 1, indent as usize).len();
            let r = value(bytes, c, depth);
            &&& r.result == Ok::<Node, Failure>(
                Node::Mapping(entries.subrange(1, entries.len() as int)),
            )
            &&& c.idx < r.cursor.idx < bytes.len()
            &&& left_at(bytes, e, c.expected, c.contexts, r.cursor)
        }),
    decreases v, 2 * count(v) + 4,
{
    let p = c.idx + 1;
    entry_line_follows(bytes, p, v, 1, indent);
    assert(newlines_end(bytes, p) == p);
    assert(newlines_end(bytes, c.idx) == p);
    let c1 = c.at(p).indented(0);
    let c2 = c.at(p + indent).indented(indent);
    mapping_from(bytes, c2, v, 1, indent, depth);
    let r = value(bytes, c2, depth);
    if indent > 0 {
        crate::cursor::ws_end_bounds(bytes, p);
        assert(is_ws(bytes[p]));
        assert(c1.indent_chomped(bytes) == c2);
        assert(value(bytes, c1, depth) == r);
    } else {
        assert(c1 == c2);
    }
    assert(value(bytes, c, depth) == r);
}

/// A value that begins with `!` is a tagged value.
proof fn tag_begins_value(bytes: Seq<u8>, c: Cursor, depth: nat)
    requires
        depth >= 1,
        0 <= c.idx < bytes.len(),
        bytes[c.idx] == 33,
    ensures
        value(bytes, c, depth) == tagged(bytes, c, (depth - 1) as nat),
{
}

/// What reading a tagged value from its `!` on gives: the value, with the cursor left
/// behind the text of the value, which ends before offset `e`.
pub open spec fn tag_is_value(bytes: Seq<u8>, c: Cursor, v: Node, depth: nat, e: int) -> bool {
    let r = value(bytes, c, depth);
    &&& r.result == Ok::<Node, Failure>(v)
    &&& c.idx < r.cursor.idx < bytes.len()
    &&& r.cursor.expected == c.expected
    &&& r.cursor.contexts == c.contexts
    &&& left_at(bytes, e, c.expected, c.contexts, r.cursor) || (r.cursor.idx == e - 1
        && is_linebreak(bytes[e - 1]))
}

/// A tagged value of phrases is read from its `!` on: one that holds a leaf or
/// nothing from its line, which leaves the cursor on the line break that ends it, and
/// one with further entries from its line and the lines below.
proof fn value_at_tag(bytes: Seq<u8>, c: Cursor, v: Node, indent: int, depth: nat)
    requires
        is_tagged(v, indent),
        depth >= height(v),
        0 <= c.idx < bytes.len(),
        bytes[c.idx] == 33,
        at_text(bytes, c.idx + 1, tag_text(v, indent)),
        count(v) >= 2 && !holds_value(v->Mapping_0) ==> line_follows(
            bytes,
            c.idx + 1 + tag_text(v, indent).len(),
            indent,
        ),
        c.expected.len() == 0,
        !in_flow(c.context()),
    ensures
        tag_is_value(bytes, c, v, depth, c.idx + 1 + tag_text(v, indent).len()),
    decreases v, 2 * count(v) + 6,
{
    let entries = v->Mapping_0;
    assert(tag_name(v) == Some(tag_of(v)));
    tallest_value_bounds(entries, entries.len() as int, 0);
    if holds_value(entries) {
        tag_with_leaf(bytes, c, v, indent, depth);
    } else if entries.len() == 1 {
        tag_alone(bytes, c, v, indent, depth);
    } else {
        tag_with_entries(bytes, c, v, indent, depth);
    }
}

/// A tag that holds one leaf is read from its line.
proof fn tag_with_leaf(bytes: Seq<u8>, c: Cursor, v: Node, indent: int, depth: nat)
    requires
        is_tagged(v, indent),
        holds_value(v->Mapping_0),
        depth >= 3,
        0 <= c.idx < bytes.len(),
        bytes[c.idx] == 33,
        at_text(bytes, c.idx + 1, tag_text(v, indent)),
        c.expected.len() == 0,
        !in_flow(c.context()),
    ensures
        tag_is_value(bytes, c, v, depth, c.idx + 1 + tag_text(v, indent).len()),
{
    marks();
    let entries = v->Mapping_0;
    let name = tag_of(v);
    let rest = tagged_rest(v, indent);
    let first = Pair { key: Node::Scalar("__type"@), value: Node::Scalar(name) };
    assert(entries[0] == first);
    at_concat(bytes, c.idx + 1, name, rest);
    let end = c.idx + 1 + name.len();
    let d = (depth - 1) as nat;
    let inner = entries[1].value;
    let word = leaf(inner);
    leaf_is_phrase(inner);
    assert(rest == (" "@ + word) + "\n"@);
    at_concat(bytes, end, " "@ + word, "\n"@);
    at_concat(bytes, end, " "@, word);
    assert(bytes[end + 0] == " "@[0] as u8);
    assert(bytes[end + 1 + 0] == word[0] as u8);
    assert(bytes[end + 1 + word.len() + 0] == "\n"@[0] as u8);
    assert(ws_end(bytes, end + 1) == end + 1);
    assert(ws_end(bytes, end) == end + 1);
    tag_is_read(bytes, c, name);
    phrase_is_read(bytes, c.at(end + 1), word, d);
    assert(entries =~= seq![first, Pair { key: Node::Scalar("__value"@), value: inner }]);
    assert(tag_wrapped(name, inner) == v);
    tag_begins_value(bytes, c, depth);
    let read = value(bytes, c.at(end + 1), d);
    assert(tagged(bytes, c, d) == Parsed::done(read.cursor, v));
}

/// A tag that holds nothing is read from its line.
proof fn tag_alone(bytes: Seq<u8>, c: Cursor, v: Node, indent: int, depth: nat)
    requires
        is_tagged(v, indent),
        count(v) == 1,
        depth >= 3,
        0 <= c.idx < bytes.len(),
        bytes[c.idx] == 33,
        at_text(bytes, c.idx + 1, tag_text(v, indent)),
        c.expected.len() == 0,
        !in_flow(c.context()),
    ensures
        tag_is_value(bytes, c, v, depth, c.idx + 1 + tag_text(v, indent).len()),
{
    tag_marks();
    let entries = v->Mapping_0;
    let name = tag_of(v);
    let rest = tagged_rest(v, indent);
    let first = Pair { key: Node::Scalar("__type"@), value: Node::Scalar(name) };
    assert(entries[0] == first);
    assert(!holds_value(entries));
    at_concat(bytes, c.idx + 1, name, rest);
    let end = c.idx + 1 + name.len();
    let d = (depth - 1) as nat;
    assert(bytes[end + 0] == " {}\n"@[0] as u8);
    assert(bytes[end + 1] == " {}\n"@[1] as u8);
    assert(bytes[end + 2] == " {}\n"@[2] as u8);
    assert(bytes[end + 3] == " {}\n"@[3] as u8);
    assert(ws_end(bytes, end + 1) == end + 1);
    assert(ws_end(bytes, end) == end + 1);
    tag_is_read(bytes, c, name);
    empty_mapping_is_read(bytes, c.at(end + 1), d);
    assert(entries =~= seq![first] + Seq::<Pair>::empty());
    assert(tag_wrapped(name, Node::Mapping(Seq::empty())) == v);
    tag_begins_value(bytes, c, depth);
    let read = value(bytes, c.at(end + 1), d);
    assert(tagged(bytes, c, d) == Parsed::done(read.cursor, v));
}

/// A tag with further entries is read from its line and the lines below.
proof fn tag_with_entries(bytes: Seq<u8>, c: Cursor, v: Node, indent: int, depth: nat)
    requires
        is_tagged(v, indent),
        count(v) >= 2,
        !holds_value(v->Mapping_0),
        depth >= height(v),
        0 <= c.idx < bytes.len(),
        bytes[c.idx] == 33,
        at_text(bytes, c.idx + 1, tag_text(v, indent)),
        line_follows(bytes, c.idx + 1 + tag_text(v, indent).len(), indent),
        c.expected.len() == 0,
        !in_flow(c.context()),
    ensures
        tag_is_value(bytes, c, v, depth, c.idx + 1 + tag_text(v, indent).len()),
    decreases v, 2 * count(v) + 5,
{
    marks();
    let entries = v->Mapping_0;
    let name = tag_of(v);
    let rest = tagged_rest(v, indent);
    let first = Pair { key: Node::Scalar("__type"@), value: Node::Scalar(name) };
    assert(entries[0] == first);
    assert(tag_name(v) == Some(name));
    at_concat(bytes, c.idx + 1, name, rest);
    let end = c.idx + 1 + name.len();
    let d = (depth - 1) as nat;
    let below = entries_from(v, 1, indent as usize);
    assert(rest == "\n"@ + below);
    at_concat(bytes, end, "\n"@, below);
    assert(bytes[end + 0] == "\n"@[0] as u8);
    assert(ws_end(bytes, end) == end);
    tag_is_read(bytes, c, name);
    assert(entries_plain(v, 1, indent)) by {
        assert forall|i: int| 1 <= i < entries.len() implies is_plain_leaf(
            (#[trigger] entries[i]).key,
        ) && is_value(entries[i].value, indent + 2) by {}
    }
    tail_below(bytes, c.at(end), v, indent, d);
    let tail = entries.subrange(1, entries.len() as int);
    assert(entries =~= seq![first] + tail);
    assert(tag_wrapped(name, Node::Mapping(tail)) == v);
    tag_begins_value(bytes, c, depth);
    let read = value(bytes, c.at(end), d);
    assert(tagged(bytes, c, d) == Parsed::done(read.cursor, v));
}

/// Behind the colon of its key in a mapping at `indent`, a tagged value is read.
proof fn tagged_behind_colon(bytes: Seq<u8>, c: Cursor, v: Node, indent: int, depth: nat)
    requires
        0 <= indent <= usize::MAX - 2,
        is_tagged(v, indent + 2),
        depth >= height(v),
        0 <= c.idx,
        at_text(bytes, c.idx + 1, after_colon(v, indent as usize)),
        line_follows(bytes, c.idx + 1 + after_colon(v, indent as usize).len(), indent + 2),
        c.expected.len() == 0,
        !in_flow(c.context()),
    ensures
        ({
            let t = ws_end(bytes, c.idx + 1);
            let e = c.idx + 1 + after_colon(v, indent as usize).len();
            let r = value(bytes, c.at(t), depth);
            &&& c.idx + 1 < bytes.len()
            &&& is_ws(bytes[c.idx + 1]) || is_linebreak(bytes[c.idx + 1])
            &&& comment_end(bytes, t) == t
            &&& r.result == Ok::<Node, Failure>(v)
            &&& c.idx < r.cursor.idx < bytes.len()
            &&& r.cursor.expected == c.expected
            &&& r.cursor.contexts == c.contexts
            &&& left_at(bytes, e, c.expected, c.contexts, r.cursor) || (r.cursor.idx == e - 1
                && is_linebreak(bytes[e - 1]))
        }),
    decreases v, 2 * count(v) + 7,
{
    let p = c.idx + 1;
    marks();
    tag_marks();
    after_colon_tagged_is(v, indent);
    let behind = "!"@ + tag_text(v, indent + 2);
    at_concat(bytes, p, " "@, behind);
    at_concat(bytes, p + 1, "!"@, tag_text(v, indent + 2));
    assert(bytes[p + 0] == " "@[0] as u8);
    assert(bytes[p + 1 + 0] == "!"@[0] as u8);
    assert(ws_end(bytes, p + 1) == p + 1);
    assert(ws_end(bytes, p) == p + 1);
    assert(comment_end(bytes, p + 1) == p + 1);
    value_at_tag(bytes, c.at(p + 1), v, indent + 2, depth);
}

} // verus!
