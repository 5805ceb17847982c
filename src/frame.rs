use vstd::prelude::*;
use vstd::utf8::encode_utf8;
use crate::bytes::{
    find_byte, find_from, lemma_find_from_at, lemma_find_from_exists, lemma_find_from_some,
};
use crate::command::{command_frame, valid_command, CommandView};
use crate::decimal::{decimal, lemma_decimal};
use crate::response::{response_frame, valid_response, ResponseView};
use crate::value::value_field;
use crate::command::set_tag;
use crate::decimal::{all_digits, digits_value, parse_decimal};
use crate::value::val_tag;

verus! {

/// Where the value field of a frame starts, judged from its first line
/// (which ends before `limit`): at the start of a response `VAL ...`, or
/// after the key of a `SET <key> ...` command.
pub open spec fn value_start(b: Seq<u8>, limit: int) -> Option<int> {
    if b.len() >= 4 && b.take(4) == val_tag() {
        Some(0)
    } else if b.len() >= 4 && b.take(4) == set_tag() {
        match find_from(b, 4, 32u8) {
            Some(j) => if j < limit {
                Some(j + 1)
            } else {
                None
            },
            None => None,
        }
    } else {
        None
    }
}

/// The payload that a value field at `s` declares: its first position and
/// its length. Only a non-empty field whose length is a run of digits,
/// ended by a space before `limit`, declares one.
pub open spec fn declared_payload(b: Seq<u8>, s: int, limit: int) -> Option<(int, nat)> {
    if 0 <= s && s + 5 <= b.len() && b.subrange(s, s + 4) == val_tag() && b[s + 4] != 48u8 {
        match find_from(b, s + 4, 32u8) {
            Some(t) => {
                let digits = b.subrange(s + 4, t);
                if t < limit && digits.len() > 0 && all_digits(digits) && digits_value(digits)
                    <= usize::MAX {
                    Some((t + 1, digits_value(digits)))
                } else {
                    None
                }
            },
            None => None,
        }
    } else {
        None
    }
}

/// The position of the newline that ends the first frame of `b`, or `None`
/// while `b` holds no complete frame. A frame ends at its first newline,
/// except that a declared payload is taken whole, newlines included, and
/// the frame then ends at the first newline after it.
pub open spec fn frame_end(b: Seq<u8>) -> Option<int> {
    match find_from(b, 0, 10u8) {
        None => None,
        Some(n) => match value_start(b, n) {
            Some(s) => match declared_payload(b, s, n) {
                Some(p) => find_from(b, p.0 + p.1, 10u8),
                None => Some(n),
            },
            None => Some(n),
        },
    }
}

/// Whether `b` holds `tag` at its start.
fn starts_with4(b: &[u8], tag: Ghost<Seq<u8>>, t0: u8, t1: u8, t2: u8, t3: u8) -> (r: bool)
    requires
        tag@ == seq![t0, t1, t2, t3],
    ensures
        r == (b@.len() >= 4 && b@.take(4) == tag@),
{
    if b.len() < 4 {
        return false;
    }
    let r = b[0] == t0 && b[1] == t1 && b[2] == t2 && b[3] == t3;
    proof {
        if b@.take(4) == tag@ {
            assert(b@.take(4)[0] == t0 && b@.take(4)[1] == t1);
            assert(b@.take(4)[2] == t2 && b@.take(4)[3] == t3);
        }
        if r {
            assert(b@.take(4) =~= tag@);
        }
    }
    r
}

/// Reads the payload declared by a value field at `s`.
fn find_declared(b: &[u8], s: usize, limit: usize) -> (r: Option<(usize, usize)>)
    ensures
        match r {
            Some(p) => declared_payload(b@, s as int, limit as int) == Some(
                (p.0 as int, p.1 as nat),
            ),
            None => declared_payload(b@, s as int, limit as int) is None,
        },
{
    if s > b.len() || b.len() - s < 5 {
        return None;
    }
    let tail = &b[s..b.len()];
    assert(tail@ =~= b@.skip(s as int));
    assert(tail@.take(4) =~= b@.subrange(s as int, s + 4));
    if !starts_with4(tail, Ghost(val_tag()), 86, 65, 76, 32) || b[s + 4] == 48 {
        return None;
    }
    match find_byte(b, s + 4, 32) {
        None => None,
        Some(t) => {
            proof {
                lemma_find_from_some(b@, s + 4, 32u8);
            }
            if t >= limit {
                return None;
            }
            match parse_decimal(&b[s + 4..t]) {
                Some(n) => Some((t + 1, n)),
                None => None,
            }
        },
    }
}

/// The position of the newline that ends the first complete frame in a
/// receive buffer, or `None` while more bytes are needed.
pub fn find_frame_end(b: &[u8]) -> (r: Option<usize>)
    ensures
        match r {
            Some(e) => frame_end(b@) == Some(e as int),
            None => frame_end(b@) is None,
        },
{
    let n = match find_byte(b, 0, 10) {
        None => return None,
        Some(n) => n,
    };
    proof {
        lemma_find_from_some(b@, 0, 10u8);
    }
    let start: Option<usize> = if starts_with4(b, Ghost(val_tag()), 86, 65, 76, 32) {
        Some(0)
    } else if starts_with4(b, Ghost(set_tag()), 83, 69, 84, 32) {
        match find_byte(b, 4, 32) {
            Some(j) => {
                proof {
                    lemma_find_from_some(b@, 4, 32u8);
                }
                if j < n {
                    Some(j + 1)
                } else {
                    None
                }
            },
            None => None,
        }
    } else {
        None
    };
    assert(match start {
        Some(s) => value_start(b@, n as int) == Some(s as int),
        None => value_start(b@, n as int) is None,
    });
    match start {
        None => Some(n),
        Some(s) => match find_declared(b, s, n) {
            None => Some(n),
            Some((p, len)) => {
                if len > b.len() - p {
                    None
                } else {
                    find_byte(b, p + len, 10)
                }
            },
        },
    }
}

/// A value field `f` placed at `s` in `b`, with nothing but the frame's
/// closing newline at `s + f.len()`: the frame ends right after the field,
/// provided no newline comes before the field and none comes in it but
/// inside its payload.
proof fn lemma_field_frame_end(b: Seq<u8>, s: int, p: Seq<u8>)
    requires
        0 <= s,
        p.len() <= usize::MAX,
        s + value_field(p).len() < b.len(),
        b.subrange(s, s + value_field(p).len() as int) == value_field(p),
        b[s + value_field(p).len()] == 10u8,
        forall|i: int| 0 <= i < s ==> b[i] != 10u8,
        p.len() == 0 ==> forall|i: int| 0 <= i < p.len() ==> p[i] != 10u8,
    ensures
        find_from(b, 0, 10u8) is Some,
        s < find_from(b, 0, 10u8)->0,
        p.len() == 0 ==> declared_payload(b, s, find_from(b, 0, 10u8)->0) is None,
        p.len() > 0 ==> declared_payload(b, s, find_from(b, 0, 10u8)->0) == Some(
            (s + value_field(p).len() - p.len(), p.len()),
        ),
{
    let f = value_field(p);
    let e = s + f.len();
    lemma_find_from_exists(b, 0, 10u8, e);
    lemma_find_from_some(b, 0, 10u8);
    let n = find_from(b, 0, 10u8)->0;
    assert(b.subrange(s, s + 4) =~= f.take(4));
    if p.len() == 0 {
        assert forall|i: int| s <= i < e implies b[i] != 10u8 by {
            assert(b[i] == f[i - s]);
        }
        assert(b[s + 4] == f[4]);
    } else {
        let d = decimal(p.len());
        lemma_decimal(p.len());
        let t: int = s + 4 + d.len() as int;
        assert forall|i: int| s <= i <= t implies b[i] != 10u8 by {
            assert(b[i] == f[i - s]);
            if i >= s + 4 && i < t {
                assert(f[i - s] == d[i - s - 4]);
            }
        }
        assert(b[s + 4] == d[0]) by {
            assert(b[s + 4] == f[4]);
        }
        assert forall|i: int| s + 4 <= i < t implies b[i] != 32u8 by {
            assert(b[i] == f[i - s]);
            assert(f[i - s] == d[i - s - 4]);
        }
        assert(b[t] == 32u8) by {
            assert(b[t] == f[t - s]);
        }
        lemma_find_from_at(b, s + 4, 32u8, t);
        assert(b.subrange(s + 4, t) =~= d) by {
            assert forall|i: int| 0 <= i < d.len() implies b.subrange(s + 4, t)[i] == d[i] by {
                assert(b[s + 4 + i] == f[4 + i]);
            }
        }
        assert(n > t);
        assert(f.take(4) =~= val_tag());
        assert(f.len() == 4 + d.len() + 1 + p.len());
        assert(digits_value(b.subrange(s + 4, t)) == p.len());
        assert(declared_payload(b, s, n) == Some((t + 1, p.len())));
    }
}

/// The `SET` case of `lemma_command_frame_end`.
proof fn lemma_put_frame_end(key: Seq<char>, value: Seq<u8>, more: Seq<u8>)
    requires
        valid_command(CommandView::Put { key, value }),
    ensures
        frame_end(command_frame(CommandView::Put { key, value }) + seq![10u8] + more) == Some(
            command_frame(CommandView::Put { key, value }).len() as int,
        ),
{
    let f = command_frame(CommandView::Put { key, value });
    let b = f + seq![10u8] + more;
    let e = f.len() as int;
    assert(b[e] == 10u8);
    let k = encode_utf8(key);
    let j: int = 4 + k.len() as int;
    assert(b.take(4) =~= set_tag());
    assert forall|i: int| 4 <= i < j implies b[i] != 32u8 && b[i] != 10u8 by {
        assert(b[i] == k[i - 4]);
    }
    assert(b[j] == 32u8);
    lemma_find_from_at(b, 4, 32u8, j);
    let vf = value_field(value);
    assert(e == j + 1 + vf.len());
    assert(b.subrange(j + 1, e) =~= vf) by {
        assert forall|i: int| 0 <= i < vf.len() implies b[j + 1 + i] == vf[i] by {
            assert(b[j + 1 + i] == f[j + 1 + i]);
        }
    }
    assert forall|i: int| 0 <= i < j + 1 implies b[i] != 10u8 by {
        if i < 4 {
            assert(b[i] == set_tag()[i]);
        }
    }
    lemma_field_frame_end(b, j + 1, value);
    if value.len() == 0 {
        assert forall|i: int| j + 1 <= i < e implies b[i] != 10u8 by {
            assert(b[i] == b.subrange(j + 1, e)[i - j - 1]);
        }
        lemma_find_from_at(b, 0, 10u8, e);
    } else {
        lemma_find_from_at(b, e, 10u8, e);
    }
}

/// The frame of a valid command, sent with its newline and followed by any
/// bytes, is found whole: newlines inside a stored value do not end it.
pub proof fn lemma_command_frame_end(c: CommandView, more: Seq<u8>)
    requires
        valid_command(c),
    ensures
        frame_end(command_frame(c) + seq![10u8] + more) == Some(command_frame(c).len() as int),
{
    if let CommandView::Put { key, value } = c {
        lemma_put_frame_end(key, value, more);
    } else {
        let f = command_frame(c);
        let b = f + seq![10u8] + more;
        let e = f.len() as int;
        assert(b[e] == 10u8);
        assert forall|i: int| 0 <= i < e implies b[i] != 10u8 by {
            assert(b[i] == f[i]);
            if i >= 4 {
                if let CommandView::Get { key } = c {
                    assert(f[i] == encode_utf8(key)[i - 4]);
                } else if let CommandView::Delete { key } = c {
                    assert(f[i] == encode_utf8(key)[i - 4]);
                }
            }
        }
        lemma_find_from_at(b, 0, 10u8, e);
        if b.len() >= 4 {
            assert(b.take(4)[0] != val_tag()[0]);
            assert(b.take(4)[0] != set_tag()[0]);
        }
    }
}

/// The frame of a valid response whose error message holds no newline,
/// sent with its newline and followed by any bytes, is found whole:
/// newlines inside a value do not end it.
pub proof fn lemma_response_frame_end(r: ResponseView, more: Seq<u8>)
    requires
        valid_response(r),
        r matches ResponseView::Error(m) ==> !encode_utf8(m).contains(10u8),
    ensures
        frame_end(response_frame(r) + seq![10u8] + more) == Some(response_frame(r).len() as int),
{
    let f = response_frame(r);
    let b = f + seq![10u8] + more;
    let e = f.len() as int;
    assert(b[e] == 10u8);
    assert(b.subrange(0, e) =~= f);
    match r {
        ResponseView::Value(p) => {
            assert(b.take(4) =~= val_tag());
            lemma_field_frame_end(b, 0, p);
            if p.len() == 0 {
                assert forall|i: int| 0 <= i < e implies b[i] != 10u8 by {
                    assert(b[i] == f[i]);
                }
                lemma_find_from_at(b, 0, 10u8, e);
            } else {
                lemma_find_from_at(b, e, 10u8, e);
            }
        },
        _ => {
            assert forall|i: int| 0 <= i < e implies b[i] != 10u8 by {
                assert(b[i] == f[i]);
                if let ResponseView::Error(m) = r {
                    if i >= 4 {
                        assert(f[i] == encode_utf8(m)[i - 4]);
                    }
                }
            }
            lemma_find_from_at(b, 0, 10u8, e);
            if b.len() >= 4 {
                assert(b.take(4)[0] != val_tag()[0]);
                assert(b.take(4)[0] != set_tag()[0]);
            }
        },
    }
}

} // verus!
