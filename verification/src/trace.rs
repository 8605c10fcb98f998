//! Trace lines of the form `4:top:fopen /proc/sys/kernel/osrelease:0x57b4d4d33540`,
//! that is `id : program : syscall path : value`.
use vstd::prelude::*;
use vstd::utf8::{
    encode_utf8, encode_utf8_valid_utf8, is_ascii_chars, is_ascii_chars_encode_utf8, is_char_boundary,
    is_char_boundary_iff_not_is_continuation_byte,
};
use crate::number::{
    all_digits, ascii_bytes, decimal_digits, hex_digits, is_digit_char, lemma_decimal_digits,
    lemma_hex_digits, lemma_parse_i64_decimal, lemma_parse_i64_hex, lemma_parse_u32_decimal, parse_i64,
    parse_u32, signed_decimal, spec_parse_i64, spec_parse_u32,
};
use crate::text::{
    lemma_split_join, lemma_split_on_nonempty, lemma_split_pieces_lack_sep, lemma_split_without_sep, split_on,
    split_str,
};

verus! {

/// One traced file access.
#[derive(Clone, Debug, PartialEq)]
pub struct Action {
    pub id_x: u32,
    pub bin_name: String,
    pub syscall: String,
    pub file_path: String,
    pub val: Option<i64>,
}

/// An [`Action`] with its strings taken as sequences of characters.
pub struct ActionView {
    pub id_x: u32,
    pub bin_name: Seq<char>,
    pub syscall: Seq<char>,
    pub file_path: Seq<char>,
    pub val: Option<i64>,
}

impl View for Action {
    type V = ActionView;

    open spec fn view(&self) -> ActionView {
        ActionView {
            id_x: self.id_x,
            bin_name: self.bin_name@,
            syscall: self.syscall@,
            file_path: self.file_path@,
            val: self.val,
        }
    }
}

/// The value field: decimal if it reads as one, else hexadecimal after a two-byte
/// `0x` prefix (`None` when that reads as nothing either). The outer `None` is a
/// field whose first two bytes do not end on a character boundary, which cannot
/// be cut there.
pub open spec fn spec_parse_val(b: Seq<u8>) -> Option<Option<i64>> {
    match spec_parse_i64(b, 10) {
        Some(v) => Some(Some(v)),
        None => if b.len() >= 2 && is_char_boundary(b, 2) {
            Some(spec_parse_i64(b.subrange(2, b.len() as int), 16))
        } else {
            None
        },
    }
}

/// The action a trace line describes: exactly four `:`-separated fields, the third
/// of them exactly two ` `-separated words, a decimal `u32` id and a value field
/// that [`spec_parse_val`] accepts. `None` for any other line.
pub open spec fn spec_parse_action(line: Seq<char>) -> Option<ActionView> {
    let parts = split_on(line, ':');
    if parts.len() != 4 {
        None
    } else {
        let words = split_on(parts[2], ' ');
        if words.len() != 2 {
            None
        } else {
            match (spec_parse_u32(encode_utf8(parts[0])), spec_parse_val(encode_utf8(parts[3]))) {
                (Some(id), Some(val)) => Some(
                    ActionView {
                        id_x: id,
                        bin_name: parts[1],
                        syscall: words[0],
                        file_path: words[1],
                        val: val,
                    },
                ),
                _ => None,
            }
        }
    }
}

/// The action a trace line describes, if it is well formed.
fn read_line(line: &str) -> (r: Option<Action>)
    ensures
        match r {
            Some(a) => spec_parse_action(line@) == Some(a@),
            None => spec_parse_action(line@) is None,
        },
{
    let parts = split_str(line, ':');
    if parts.len() != 4 {
        return None;
    }
    let words = split_str(parts[2], ' ');
    if words.len() != 2 {
        return None;
    }
    let id_bytes = parts[0].as_bytes();
    let val_str = parts[3];
    let val_bytes = val_str.as_bytes();
    assert(val_bytes@.subrange(0, val_bytes@.len() as int) =~= val_bytes@);
    let val = match parse_i64(val_bytes, 0, 10) {
        Some(v) => Some(v),
        None => {
            if val_bytes.len() >= 2 && val_str.is_char_boundary(2) {
                parse_i64(val_bytes, 2, 16)
            } else {
                return None;
            }
        },
    };
    let id_x = match parse_u32(id_bytes) {
        Some(id) => id,
        None => return None,
    };
    Some(
        Action {
            id_x,
            bin_name: parts[1].to_owned(),
            syscall: words[0].to_owned(),
            file_path: words[1].to_owned(),
            val,
        },
    )
}

/// Whether `line` is a well-formed trace line, one that [`parse_action`] accepts.
pub fn is_trace_line(line: &str) -> (b: bool)
    ensures
        b == spec_parse_action(line@) is Some,
{
    read_line(line).is_some()
}

/// Reads one well-formed trace line (see [`spec_parse_action`]); a caller holding a
/// line of unknown form tests it with [`is_trace_line`] first.
pub fn parse_action(line: String) -> (r: Result<Action, ()>)
    requires
        spec_parse_action(line@) is Some,
    ensures
        r matches Ok(a) && spec_parse_action(line@) == Some(a@),
{
    match read_line(line.as_str()) {
        Some(a) => Ok(a),
        None => Err(()),
    }
}


/// The views of a sequence of actions.
pub open spec fn actions_view(v: Seq<Action>) -> Seq<ActionView> {
    v.map_values(|a: Action| a@)
}

/// The fields of a parsed line are the pieces between its separators: the program
/// name holds no `:`, and neither the syscall nor the path holds a `:` or a space.
pub proof fn lemma_parsed_fields_lack_separators(line: Seq<char>)
    ensures
        spec_parse_action(line) matches Some(a) ==> {
            &&& !a.bin_name.contains(':')
            &&& !a.syscall.contains(':')
            &&& !a.syscall.contains(' ')
            &&& !a.file_path.contains(':')
            &&& !a.file_path.contains(' ')
        },
{
    let parts = split_on(line, ':');
    lemma_split_pieces_lack_sep(line, ':');
    if parts.len() == 4 {
        let words = split_on(parts[2], ' ');
        lemma_split_pieces_lack_sep(parts[2], ' ');
        if words.len() == 2 {
            assert(!parts[2].contains(':'));
            assert forall|k: int| 0 <= k < words[0].len() implies words[0][k] != ':' by {
                lemma_piece_within(parts[2], ' ', 0, k);
            }
            assert forall|k: int| 0 <= k < words[1].len() implies words[1][k] != ':' by {
                lemma_piece_within(parts[2], ' ', 1, k);
            }
        }
    }
}

/// Every character of a piece of a split is a character of the whole.
proof fn lemma_piece_within(t: Seq<char>, sep: char, j: int, k: int)
    requires
        0 <= j < split_on(t, sep).len(),
        0 <= k < split_on(t, sep)[j].len(),
    ensures
        t.contains(split_on(t, sep)[j][k]),
    decreases t.len(),
{
    if t.len() > 0 {
        let prev = split_on(t.drop_last(), sep);
        lemma_split_on_nonempty(t.drop_last(), sep);
        let c = split_on(t, sep)[j][k];
        if t.last() == sep {
            if j < prev.len() {
                lemma_piece_within(t.drop_last(), sep, j, k);
                let i = choose|i: int| 0 <= i < t.drop_last().len() && t.drop_last()[i] == c;
                assert(t[i] == c);
            }
        } else if j < prev.len() - 1 || k < prev.last().len() {
            assert(split_on(t, sep)[j][k] == prev[j][k]);
            lemma_piece_within(t.drop_last(), sep, j, k);
            let i = choose|i: int| 0 <= i < t.drop_last().len() && t.drop_last()[i] == c;
            assert(t[i] == c);
        } else {
            assert(t[t.len() - 1] == c);
        }
    }
}

/// The trace line that holds the given fields: `id:bin syscall path:value` with the
/// id in decimal, that is `id`, `:`, `bin`, `:`, `sys`, a space, `path`, `:`, `val`.
pub open spec fn trace_line(id: u32, bin: Seq<char>, sys: Seq<char>, path: Seq<char>, val: Seq<char>) -> Seq<char> {
    decimal_digits(id as nat) + seq![':'] + bin + seq![':'] + (sys + seq![' '] + path) + seq![':'] + val
}

proof fn lemma_ascii_encoding(s: Seq<char>)
    requires
        is_ascii_chars(s),
    ensures
        encode_utf8(s) == ascii_bytes(s),
{
    is_ascii_chars_encode_utf8(s);
    assert(encode_utf8(s) =~= ascii_bytes(s));
}

proof fn lemma_digits_ascii_no_sep(d: Seq<char>)
    requires
        forall|i: int| 0 <= i < d.len() ==> is_digit_char(#[trigger] d[i]),
    ensures
        is_ascii_chars(d),
        !d.contains(':'),
{
    assert forall|i: int| 0 <= i < d.len() implies '\0' <= #[trigger] d[i] <= '\u{7f}' by {
        assert(is_digit_char(d[i]));
    }
    if d.contains(':') {
        let i = choose|i: int| 0 <= i < d.len() && d[i] == ':';
        assert(is_digit_char(d[i]));
    }
}

proof fn lemma_parse_line_with_value(
    id: u32,
    bin: Seq<char>,
    sys: Seq<char>,
    path: Seq<char>,
    val: Seq<char>,
    expected: Option<i64>,
)
    requires
        !bin.contains(':'),
        !sys.contains(':'),
        !sys.contains(' '),
        !path.contains(':'),
        !path.contains(' '),
        !val.contains(':'),
        is_ascii_chars(val),
        spec_parse_val(ascii_bytes(val)) == Some(expected),
    ensures
        spec_parse_action(trace_line(id, bin, sys, path, val)) == Some(
            ActionView { id_x: id, bin_name: bin, syscall: sys, file_path: path, val: expected },
        ),
{
    let d = decimal_digits(id as nat);
    lemma_decimal_digits(id as nat);
    lemma_digits_ascii_no_sep(d);
    let w = sys + seq![' '] + path;
    assert(!w.contains(':')) by {
        if w.contains(':') {
            let i = choose|i: int| 0 <= i < w.len() && w[i] == ':';
            if i < sys.len() {
                assert(sys[i] == ':');
            } else if i > sys.len() {
                assert(path[i - sys.len() - 1] == ':');
            }
        }
    }
    let line = trace_line(id, bin, sys, path, val);
    let r2 = w + seq![':'] + val;
    let r1 = bin + seq![':'] + r2;
    assert(line =~= d + seq![':'] + r1);
    assert(r1 =~= bin + seq![':'] + r2);
    lemma_split_join(d, r1, ':');
    lemma_split_join(bin, r2, ':');
    lemma_split_join(w, val, ':');
    lemma_split_without_sep(d, ':');
    lemma_split_without_sep(bin, ':');
    lemma_split_without_sep(w, ':');
    lemma_split_without_sep(val, ':');
    let parts = split_on(line, ':');
    assert(parts =~= seq![d, bin, w, val]);
    lemma_split_join(sys, path, ' ');
    lemma_split_without_sep(sys, ' ');
    lemma_split_without_sep(path, ' ');
    assert(split_on(w, ' ') =~= seq![sys, path]);
    lemma_ascii_encoding(d);
    lemma_ascii_encoding(val);
    lemma_parse_u32_decimal(id);
}

/// A line written from its fields reads back as those fields: with the value in
/// decimal, or, for a value that is not negative, in hexadecimal after `0x`. The
/// program name must hold no `:`, and the syscall and the path neither a `:` nor a
/// space.
pub proof fn lemma_parse_written_line(id: u32, bin: Seq<char>, sys: Seq<char>, path: Seq<char>, v: i64)
    requires
        !bin.contains(':'),
        !sys.contains(':'),
        !sys.contains(' '),
        !path.contains(':'),
        !path.contains(' '),
    ensures
        spec_parse_action(trace_line(id, bin, sys, path, signed_decimal(v as int))) == Some(
            ActionView { id_x: id, bin_name: bin, syscall: sys, file_path: path, val: Some(v) },
        ),
        v >= 0 ==> spec_parse_action(trace_line(id, bin, sys, path, seq!['0', 'x'] + hex_digits(v as nat)))
            == Some(ActionView { id_x: id, bin_name: bin, syscall: sys, file_path: path, val: Some(v) }),
{
    let m: nat = if v < 0 { (-v) as nat } else { v as nat };
    lemma_decimal_digits(m);
    let dm = decimal_digits(m);
    lemma_digits_ascii_no_sep(dm);
    let sd = signed_decimal(v as int);
    if v < 0 {
        assert(sd =~= seq!['-'] + dm);
        assert(is_ascii_chars(sd)) by {
            assert forall|i: int| 0 <= i < sd.len() implies '\0' <= #[trigger] sd[i] <= '\u{7f}' by {
                if i > 0 {
                    assert(sd[i] == dm[i - 1]);
                }
            }
        }
        assert(!sd.contains(':')) by {
            if sd.contains(':') {
                let i = choose|i: int| 0 <= i < sd.len() && sd[i] == ':';
                assert(sd[i] == dm[i - 1]);
            }
        }
    }
    lemma_parse_i64_decimal(v);
    lemma_parse_line_with_value(id, bin, sys, path, sd, Some(v));
    if v >= 0 {
        let h = hex_digits(v as nat);
        lemma_hex_digits(v as nat);
        lemma_digits_ascii_no_sep(h);
        let hv = seq!['0', 'x'] + h;
        assert(is_ascii_chars(hv)) by {
            assert forall|i: int| 0 <= i < hv.len() implies '\0' <= #[trigger] hv[i] <= '\u{7f}' by {
                if i >= 2 {
                    assert(hv[i] == h[i - 2]);
                }
            }
        }
        assert(!hv.contains(':')) by {
            if hv.contains(':') {
                let i = choose|i: int| 0 <= i < hv.len() && hv[i] == ':';
                assert(hv[i] == h[i - 2]);
            }
        }
        let b = ascii_bytes(hv);
        lemma_ascii_encoding(hv);
        encode_utf8_valid_utf8(hv);
        assert(b[1] == 120u8);
        assert(!all_digits(b, 10));
        assert(spec_parse_i64(b, 10) is None);
        assert(is_digit_char(h[0]));
        assert(b[2] == h[0] as u8);
        is_char_boundary_iff_not_is_continuation_byte(b, 2);
        assert(b.subrange(2, b.len() as int) =~= ascii_bytes(h));
        lemma_parse_i64_hex(v);
        lemma_parse_line_with_value(id, bin, sys, path, hv, Some(v));
    }
}

} // verus!
