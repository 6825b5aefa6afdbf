//! The printer: a decoded value as indented text, one line for each
//! integer, byte string, key, and opening or closing bracket.

use crate::encoding::{int_text, nat_text};
use crate::grammar::DIGIT_ZERO;
use crate::value::{
    entries_model, items_model, lemma_dict_view, lemma_list_view, BencodeObj, Value,
};
use vstd::prelude::*;
use vstd::string::StringExecFns;
use vstd::utf8::{decode_utf8, valid_utf8};

verus! {

/// The text that `std` writes for a string under `{:?}`: the string in
/// double quotes, with the characters that need it escaped.
pub uninterp spec fn debug_quoted(text: Seq<char>) -> Seq<char>;

/// Quotes a text as `std` does for `{:?}`, through `<str as Debug>::fmt`.
/// Nothing is proved of the quoting: the contract only gives the result
/// its name.
#[verifier::external_body]
fn quote(text: &str) -> (quoted: String)
    ensures
        quoted@ == debug_quoted(text@),
{
    format!("{:?}", text)
}

/// Reads bytes as text, through `std::str::from_utf8`: the text that the
/// bytes encode if they are valid UTF-8, nothing if they are not. That
/// `std` takes for valid what `vstd::utf8::valid_utf8` describes, and
/// reads it as `vstd::utf8::decode_utf8` does, is not proved.
#[verifier::external_body]
fn text_of(bytes: &[u8]) -> (text: Option<&str>)
    ensures
        match text {
            Some(t) => valid_utf8(bytes@) && t@ == decode_utf8(bytes@),
            None => !valid_utf8(bytes@),
        },
{
    std::str::from_utf8(bytes).ok()
}

/// `n` spaces.
pub open spec fn spaces(n: nat) -> Seq<char> {
    Seq::new(n, |i: int| ' ')
}

/// The characters of a text of ASCII bytes.
pub open spec fn ascii(bytes: Seq<u8>) -> Seq<char> {
    Seq::new(bytes.len(), |i: int| bytes[i] as char)
}

/// What stands for a byte string that is no valid text: `"...bytes..."`,
/// quotes included.
pub open spec fn placeholder() -> Seq<char> {
    seq!['"', '.', '.', '.', 'b', 'y', 't', 'e', 's', '.', '.', '.', '"']
}

/// How a byte string is shown: quoted if it is valid UTF-8, as the
/// placeholder if it is not.
pub open spec fn shown(bytes: Seq<u8>) -> Seq<char> {
    if valid_utf8(bytes) {
        debug_quoted(decode_utf8(bytes))
    } else {
        placeholder()
    }
}

/// The text of a value whose lines begin with `pad`.
///
/// An integer is one line with its decimal notation, a byte string one
/// line as `shown` gives it. A list is a line `[`, its items with two
/// more spaces in front, and a line `]`. A dictionary is a line `{`, then
/// for each entry a line with the key and the value below it, both with
/// two more spaces in front, and a line `}`.
pub open spec fn rendering(value: Value, pad: Seq<char>) -> Seq<char>
    decreases value, 0nat,
{
    match value {
        Value::Num(n) => pad + ascii(int_text(n)) + seq!['\n'],
        Value::Str(bytes) => pad + shown(bytes) + seq!['\n'],
        Value::List(items) => pad + seq!['[', '\n'] + items_rendering(
            items,
            items.len(),
            pad + seq![' ', ' '],
        ) + pad + seq![']', '\n'],
        Value::Dict(entries) => pad + seq!['{', '\n'] + entries_rendering(
            entries,
            entries.len(),
            pad + seq![' ', ' '],
        ) + pad + seq!['}', '\n'],
    }
}

/// The text of the first `n` values of `items`, one after another.
pub open spec fn items_rendering(items: Seq<Value>, n: nat, pad: Seq<char>) -> Seq<char>
    decreases items, n,
{
    if n == 0 || n > items.len() {
        Seq::empty()
    } else {
        items_rendering(items, (n - 1) as nat, pad) + rendering(items[n - 1], pad)
    }
}

/// The text of the first `n` entries, one after another: a line with the
/// key, then the value.
pub open spec fn entries_rendering(entries: Seq<(Seq<u8>, Value)>, n: nat, pad: Seq<char>) -> Seq<
    char,
>
    decreases entries, n,
{
    if n == 0 || n > entries.len() {
        Seq::empty()
    } else {
        entries_rendering(entries, (n - 1) as nat, pad) + pad + shown(entries[n - 1].0) + seq![
            '\n',
        ] + rendering(entries[n - 1].1, pad)
    }
}

/// The text of one decimal digit.
fn digit_str(d: u8) -> (text: &'static str)
    requires
        d < 10,
    ensures
        text@ == seq![(DIGIT_ZERO + d) as u8 as char],
{
    proof {
        reveal_strlit("0");
        reveal_strlit("1");
        reveal_strlit("2");
        reveal_strlit("3");
        reveal_strlit("4");
        reveal_strlit("5");
        reveal_strlit("6");
        reveal_strlit("7");
        reveal_strlit("8");
        reveal_strlit("9");
    }
    let text = match d {
        0 => "0",
        1 => "1",
        2 => "2",
        3 => "3",
        4 => "4",
        5 => "5",
        6 => "6",
        7 => "7",
        8 => "8",
        _ => "9",
    };
    assert(text@ =~= seq![(DIGIT_ZERO + d) as u8 as char]);
    text
}

/// Appends the decimal digits of `n`.
fn push_digits(out: &mut String, n: u64)
    ensures
        final(out)@ == old(out)@ + ascii(nat_text(n as nat)),
    decreases n,
{
    if n >= 10 {
        push_digits(out, n / 10);
    }
    out.append(digit_str((n % 10) as u8));
    proof {
        let last = (DIGIT_ZERO + n % 10) as u8;
        if n >= 10 {
            assert(ascii(nat_text(n as nat)) =~= ascii(nat_text((n / 10) as nat)).push(
                last as char,
            ));
        } else {
            assert(ascii(nat_text(n as nat)) =~= seq![last as char]);
        }
        assert(out@ =~= old(out)@ + ascii(nat_text(n as nat)));
    }
}

/// Appends the decimal notation of `n`.
fn push_integer(out: &mut String, n: i64)
    ensures
        final(out)@ == old(out)@ + ascii(int_text(n as int)),
{
    if n < 0 {
        let magnitude: u64 = if n == i64::MIN {
            0x8000_0000_0000_0000
        } else {
            (-n) as u64
        };
        proof {
            reveal_strlit("-");
        }
        out.append("-");
        push_digits(out, magnitude);
        proof {
            assert(ascii(int_text(n as int)) =~= seq!['-'] + ascii(nat_text(magnitude as nat)));
            assert("-"@ =~= seq!['-']);
            assert(out@ =~= old(out)@ + ascii(int_text(n as int)));
        }
    } else {
        push_digits(out, n as u64);
    }
}

/// What is shown for a byte string, given its text in quotes where it has
/// one: that text, or the placeholder where there is none.
pub fn quoted_or_placeholder(quoted: Option<String>) -> (text: String)
    ensures
        text@ == match quoted {
            Some(q) => q@,
            None => placeholder(),
        },
{
    match quoted {
        Some(q) => q,
        None => {
            proof {
                reveal_strlit("\"...bytes...\"");
            }
            let text = String::from_str("\"...bytes...\"");
            assert(text@ =~= placeholder());
            text
        },
    }
}

/// Appends a byte string as `shown` gives it.
fn push_shown(out: &mut String, bytes: &Vec<u8>)
    ensures
        final(out)@ == old(out)@ + shown(bytes@),
{
    let quoted = match text_of(bytes.as_slice()) {
        Some(text) => Some(quote(text)),
        None => None,
    };
    let text = quoted_or_placeholder(quoted);
    out.append(text.as_str());
}

/// Appends the text of `obj`, each line of it behind `pad`.
fn render_into(obj: &BencodeObj, pad: &str, out: &mut String)
    ensures
        final(out)@ == old(out)@ + rendering(obj@, pad@),
    decreases obj,
{
    proof {
        reveal_strlit("\n");
        reveal_strlit("  ");
        reveal_strlit("[\n");
        reveal_strlit("]\n");
        reveal_strlit("{\n");
        reveal_strlit("}\n");
        assert("\n"@ =~= seq!['\n']);
        assert("  "@ =~= seq![' ', ' ']);
        assert("[\n"@ =~= seq!['[', '\n']);
        assert("]\n"@ =~= seq![']', '\n']);
        assert("{\n"@ =~= seq!['{', '\n']);
        assert("}\n"@ =~= seq!['}', '\n']);
    }
    match obj {
        BencodeObj::Num(n) => {
            out.append(pad);
            push_integer(out, *n);
            out.append("\n");
            assert(out@ =~= old(out)@ + rendering(obj@, pad@));
        },
        BencodeObj::Str(bytes) => {
            out.append(pad);
            push_shown(out, bytes);
            out.append("\n");
            assert(out@ =~= old(out)@ + rendering(obj@, pad@));
        },
        BencodeObj::List(items) => {
            let mut inner = String::from_str(pad);
            inner.append("  ");
            out.append(pad);
            out.append("[\n");
            let ghost model = items_model(items@);
            let ghost head = out@;
            proof {
                lemma_list_view(*items);
            }
            let mut i: usize = 0;
            while i < items.len()
                invariant
                    i <= items.len(),
                    *obj == BencodeObj::List(*items),
                    model == items_model(items@),
                    inner@ == pad@ + seq![' ', ' '],
                    out@ == head + items_rendering(model, i as nat, inner@),
                decreases items.len() - i,
            {
                assert(decreases_to!(*obj => obj->List_0));
                render_into(&items[i], inner.as_str(), out);
                i = i + 1;
            }
            out.append(pad);
            out.append("]\n");
            assert(out@ =~= old(out)@ + rendering(obj@, pad@));
        },
        BencodeObj::Dict(entries) => {
            let mut inner = String::from_str(pad);
            inner.append("  ");
            out.append(pad);
            out.append("{\n");
            let ghost model = entries_model(entries@);
            let ghost head = out@;
            proof {
                lemma_dict_view(*entries);
            }
            let mut i: usize = 0;
            while i < entries.len()
                invariant
                    i <= entries.len(),
                    *obj == BencodeObj::Dict(*entries),
                    model == entries_model(entries@),
                    inner@ == pad@ + seq![' ', ' '],
                    "\n"@ == seq!['\n'],
                    out@ == head + entries_rendering(model, i as nat, inner@),
                decreases entries.len() - i,
            {
                out.append(inner.as_str());
                push_shown(out, &entries[i].0);
                out.append("\n");
                assert(decreases_to!(*obj => obj->Dict_0));
                render_into(&entries[i].1, inner.as_str(), out);
                assert(out@ =~= head + entries_rendering(model, (i + 1) as nat, inner@));
                i = i + 1;
            }
            out.append(pad);
            out.append("}\n");
            assert(out@ =~= old(out)@ + rendering(obj@, pad@));
        },
    }
}

/// The text of `obj` with `indent` spaces in front of its first line; what
/// a list or a dictionary holds stands two spaces further in, level by
/// level. Every line ends with a line feed.
pub fn render(obj: &BencodeObj, indent: usize) -> (text: String)
    ensures
        text@ == rendering(obj@, spaces(indent as nat)),
{
    proof {
        reveal_strlit(" ");
    }
    let mut pad = String::new();
    let mut i: usize = 0;
    while i < indent
        invariant
            i <= indent,
            pad@ == spaces(i as nat),
            " "@.len() == 1,
            " "@[0] == ' ',
        decreases indent - i,
    {
        pad.append(" ");
        assert(pad@ =~= spaces((i + 1) as nat));
        i = i + 1;
    }
    let mut out = String::new();
    render_into(obj, pad.as_str(), &mut out);
    assert(out@ =~= rendering(obj@, pad@));
    out
}

} // verus!
