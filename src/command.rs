use vstd::prelude::*;
use vstd::utf8::{encode_utf8, valid_utf8};
use crate::bytes::{
    copy_range, find_byte, find_from, lemma_find_from_at, lemma_find_from_some, push_all,
    string_bytes, text_from_bytes, text_of,
};
use crate::value::{lemma_value_round_trip, parse_value, value_field, ParseError, WrappedValue};

verus! {

broadcast use vstd::utf8::group_utf8_lib;

/// A request from a client to the worker.
#[derive(Debug)]
pub enum Command {
    Get { key: String },
    Put { key: String, value: WrappedValue },
    Delete { key: String },
    Dump,
    Quit,
}

/// What a `Command` means: keys as text, values as bytes.
pub enum CommandView {
    Get { key: Seq<char> },
    Put { key: Seq<char>, value: Seq<u8> },
    Delete { key: Seq<char> },
    Dump,
    Quit,
}

impl View for Command {
    type V = CommandView;

    open spec fn view(&self) -> CommandView {
        match self {
            Command::Get { key } => CommandView::Get { key: key@ },
            Command::Put { key, value } => CommandView::Put { key: key@, value: value@ },
            Command::Delete { key } => CommandView::Delete { key: key@ },
            Command::Dump => CommandView::Dump,
            Command::Quit => CommandView::Quit,
        }
    }
}

/// `GET `
pub open spec fn get_tag() -> Seq<u8> {
    seq![71u8, 69u8, 84u8, 32u8]
}

/// `SET `
pub open spec fn set_tag() -> Seq<u8> {
    seq![83u8, 69u8, 84u8, 32u8]
}

/// `DEL `
pub open spec fn del_tag() -> Seq<u8> {
    seq![68u8, 69u8, 76u8, 32u8]
}

/// `DMP`
pub open spec fn dump_tag() -> Seq<u8> {
    seq![68u8, 77u8, 80u8]
}

/// `EXT`
pub open spec fn quit_tag() -> Seq<u8> {
    seq![69u8, 88u8, 84u8]
}

/// A key that can travel in a frame: its bytes hold neither a space nor a
/// newline.
pub open spec fn valid_key(k: Seq<char>) -> bool {
    !encode_utf8(k).contains(32u8) && !encode_utf8(k).contains(10u8)
}

/// Commands whose keys can travel in a frame, with a value whose length
/// a `usize` holds.
pub open spec fn valid_command(c: CommandView) -> bool {
    match c {
        CommandView::Get { key } => valid_key(key),
        CommandView::Put { key, value } => valid_key(key) && value.len() <= usize::MAX,
        CommandView::Delete { key } => valid_key(key),
        _ => true,
    }
}

/// The frame (without its newline) that carries a command.
pub open spec fn command_frame(c: CommandView) -> Seq<u8> {
    match c {
        CommandView::Get { key } => get_tag() + encode_utf8(key),
        CommandView::Put { key, value } => set_tag() + encode_utf8(key) + seq![32u8]
            + value_field(value),
        CommandView::Delete { key } => del_tag() + encode_utf8(key),
        CommandView::Dump => dump_tag(),
        CommandView::Quit => quit_tag(),
    }
}

/// The key of a `GET` or `DEL` frame: everything from the fifth byte on.
pub open spec fn parse_key(f: Seq<u8>) -> Option<Seq<char>> {
    if f.len() >= 4 && valid_utf8(f.skip(4)) {
        Some(text_of(f.skip(4)))
    } else {
        None
    }
}

/// The command that a frame carries, or `None` when it is malformed. The
/// first three bytes pick the command; the fourth is passed over.
pub open spec fn parse_command(f: Seq<u8>) -> Option<CommandView> {
    if f.len() < 3 {
        None
    } else if f.take(3) == get_tag().take(3) {
        match parse_key(f) {
            Some(key) => Some(CommandView::Get { key }),
            None => None,
        }
    } else if f.take(3) == set_tag().take(3) {
        if f.len() < 4 {
            None
        } else {
            match find_from(f, 4, 32u8) {
                None => None,
                Some(j) => {
                    let k = f.subrange(4, j);
                    match parse_value(f.skip(j + 1)) {
                        Some(value) => if valid_utf8(k) {
                            Some(CommandView::Put { key: text_of(k), value })
                        } else {
                            None
                        },
                        None => None,
                    }
                },
            }
        }
    } else if f.take(3) == del_tag().take(3) {
        match parse_key(f) {
            Some(key) => Some(CommandView::Delete { key }),
            None => None,
        }
    } else if f.take(3) == dump_tag() {
        Some(CommandView::Dump)
    } else if f.take(3) == quit_tag() {
        Some(CommandView::Quit)
    } else {
        None
    }
}

/// Whether the first three bytes of `f` are `a b c`.
fn starts3(f: &[u8], a: u8, b: u8, c: u8) -> (r: bool)
    requires
        f@.len() >= 3,
    ensures
        r == (f@.take(3) == seq![a, b, c]),
{
    let r = f[0] == a && f[1] == b && f[2] == c;
    proof {
        if f@.take(3) == seq![a, b, c] {
            assert(f@.take(3)[0] == a && f@.take(3)[1] == b && f@.take(3)[2] == c);
        }
        if r {
            assert(f@.take(3) =~= seq![a, b, c]);
        }
    }
    r
}

/// Reads the key from the fifth byte of `f` on.
fn decode_key(f: &[u8]) -> (r: Result<String, ParseError>)
    ensures
        match r {
            Ok(k) => parse_key(f@) == Some(k@),
            Err(_) => parse_key(f@) is None,
        },
{
    if f.len() < 4 {
        return Err(ParseError);
    }
    let kb = copy_range(f, 4, f.len());
    assert(kb@ =~= f@.skip(4));
    match text_from_bytes(kb) {
        Some(k) => Ok(k),
        None => Err(ParseError),
    }
}

impl Command {
    /// Reads a command from one frame (without its newline).
    pub fn decode(frame: &[u8]) -> (r: Result<Command, ParseError>)
        ensures
            match r {
                Ok(c) => parse_command(frame@) == Some(c@),
                Err(_) => parse_command(frame@) is None,
            },
    {
        if frame.len() < 3 {
            return Err(ParseError);
        }
        assert(get_tag().take(3) =~= seq![71u8, 69u8, 84u8]);
        assert(set_tag().take(3) =~= seq![83u8, 69u8, 84u8]);
        assert(del_tag().take(3) =~= seq![68u8, 69u8, 76u8]);
        if starts3(frame, 71, 69, 84) {
            match decode_key(frame) {
                Ok(key) => Ok(Command::Get { key }),
                Err(e) => Err(e),
            }
        } else if starts3(frame, 83, 69, 84) {
            if frame.len() < 4 {
                return Err(ParseError);
            }
            match find_byte(frame, 4, 32) {
                None => Err(ParseError),
                Some(j) => {
                    proof {
                        lemma_find_from_some(frame@, 4, 32u8);
                    }
                    match WrappedValue::decode(&frame[j + 1..frame.len()]) {
                        Err(e) => Err(e),
                        Ok(value) => {
                            assert(frame@.subrange(j + 1, frame@.len() as int) =~= frame@.skip(
                                j + 1,
                            ));
                            let kb = copy_range(frame, 4, j);
                            match text_from_bytes(kb) {
                                Some(key) => Ok(Command::Put { key, value }),
                                None => Err(ParseError),
                            }
                        },
                    }
                },
            }
        } else if starts3(frame, 68, 69, 76) {
            match decode_key(frame) {
                Ok(key) => Ok(Command::Delete { key }),
                Err(e) => Err(e),
            }
        } else if starts3(frame, 68, 77, 80) {
            Ok(Command::Dump)
        } else if starts3(frame, 69, 88, 84) {
            Ok(Command::Quit)
        } else {
            Err(ParseError)
        }
    }

    /// Appends the frame of this command (without its newline) to `out`.
    pub fn write_frame(&self, out: &mut Vec<u8>)
        ensures
            final(out)@ == old(out)@ + command_frame(self@),
    {
        match self {
            Command::Get { key } => {
                out.push(71);
                out.push(69);
                out.push(84);
                out.push(32);
                push_all(out, string_bytes(key));
            },
            Command::Put { key, value } => {
                out.push(83);
                out.push(69);
                out.push(84);
                out.push(32);
                push_all(out, string_bytes(key));
                out.push(32);
                value.write_field(out);
            },
            Command::Delete { key } => {
                out.push(68);
                out.push(69);
                out.push(76);
                out.push(32);
                push_all(out, string_bytes(key));
            },
            Command::Dump => {
                out.push(68);
                out.push(77);
                out.push(80);
            },
            Command::Quit => {
                out.push(69);
                out.push(88);
                out.push(84);
            },
        }
        assert(out@ =~= old(out)@ + command_frame(self@));
    }

    /// The frame (without its newline) that carries this command.
    pub fn encode(&self) -> (r: Vec<u8>)
        ensures
            r@ == command_frame(self@),
    {
        let mut out: Vec<u8> = Vec::new();
        self.write_frame(&mut out);
        assert(out@ =~= command_frame(self@));
        out
    }
}

/// Reading back the frame of a valid command gives that command.
pub proof fn lemma_command_round_trip(c: CommandView)
    requires
        valid_command(c),
    ensures
        parse_command(command_frame(c)) == Some(c),
{
    let f = command_frame(c);
    assert(get_tag().take(3) =~= seq![71u8, 69u8, 84u8]);
    assert(set_tag().take(3) =~= seq![83u8, 69u8, 84u8]);
    assert(del_tag().take(3) =~= seq![68u8, 69u8, 76u8]);
    match c {
        CommandView::Get { key } => {
            assert(f.take(3) =~= get_tag().take(3));
            assert(f.skip(4) =~= encode_utf8(key));
        },
        CommandView::Put { key, value } => {
            let k = encode_utf8(key);
            let vf = value_field(value);
            assert(f.take(3) =~= set_tag().take(3));
            assert(f.take(3)[0] != get_tag().take(3)[0]);
            let j: int = 4 + k.len() as int;
            assert forall|i: int| 4 <= i < j implies f[i] != 32u8 by {
                assert(f[i] == k[i - 4]);
            }
            assert(f[j] == 32u8);
            lemma_find_from_at(f, 4, 32u8, j);
            assert(f.subrange(4, j) =~= k);
            assert(f.skip(j + 1) =~= vf);
            lemma_value_round_trip(value);
        },
        CommandView::Delete { key } => {
            assert(f.take(3) =~= del_tag().take(3));
            assert(f.take(3)[0] != get_tag().take(3)[0]);
            assert(f.take(3)[0] != set_tag().take(3)[0]);
            assert(f.skip(4) =~= encode_utf8(key));
        },
        CommandView::Dump => {
            assert(f.take(3) =~= dump_tag());
            assert(f.take(3)[0] != get_tag().take(3)[0]);
            assert(f.take(3)[0] != set_tag().take(3)[0]);
            assert(f.take(3)[1] != del_tag().take(3)[1]);
        },
        CommandView::Quit => {
            assert(f.take(3) =~= quit_tag());
            assert(f.take(3)[0] != get_tag().take(3)[0]);
            assert(f.take(3)[0] != set_tag().take(3)[0]);
            assert(f.take(3)[0] != del_tag().take(3)[0]);
            assert(f.take(3)[0] != dump_tag()[0]);
        },
    }
}

} // verus!
