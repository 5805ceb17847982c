use vstd::prelude::*;
use vstd::pervasive::VecAdditionalExecFns;
use vstd::string::StringExecFns;
use vstd::utf8::encode_utf8;
use crate::bytes::{copy_range, push_all, string_bytes};
use crate::command::{parse_command, Command, CommandView};
use crate::response::{response_frame, Response, ResponseView};
use crate::value::WrappedValue;

verus! {

/// What a `Store` holds: the key-value mapping, the number of requests
/// served (it stops growing at `u64::MAX`), and whether a `Quit` has been
/// processed.
pub struct StoreView {
    pub db: Map<Seq<char>, Seq<u8>>,
    pub count: nat,
    pub should_terminate: bool,
}

/// The request count after one more request, saturating at `u64::MAX`.
pub open spec fn bump(n: nat) -> nat {
    if n < u64::MAX {
        n + 1
    } else {
        n
    }
}

/// `, `
pub open spec fn entry_separator() -> Seq<u8> {
    seq![44u8, 32u8]
}

/// `: `
pub open spec fn key_separator() -> Seq<u8> {
    seq![58u8, 32u8]
}

/// One entry of a dump: `<key>: <value>`.
pub open spec fn entry_text(e: (Seq<char>, Seq<u8>)) -> Seq<u8> {
    encode_utf8(e.0) + key_separator() + e.1
}

/// The entries of a dump, separated by `, `.
pub open spec fn entries_text(l: Seq<(Seq<char>, Seq<u8>)>) -> Seq<u8>
    decreases l.len(),
{
    if l.len() == 0 {
        Seq::empty()
    } else if l.len() == 1 {
        entry_text(l[0])
    } else {
        entries_text(l.drop_last()) + entry_separator() + entry_text(l.last())
    }
}

/// A dump of the entries `l`: `{<key>: <value>, ...}`.
pub open spec fn dump_text(l: Seq<(Seq<char>, Seq<u8>)>) -> Seq<u8> {
    seq![123u8] + entries_text(l) + seq![125u8]
}

/// Whether `l` lists each entry of `m` exactly once, in some order.
pub open spec fn is_listing(l: Seq<(Seq<char>, Seq<u8>)>, m: Map<Seq<char>, Seq<u8>>) -> bool {
    &&& forall|i: int, j: int| 0 <= i < j < l.len() ==> l[i].0 != l[j].0
    &&& forall|k: Seq<char>| m.contains_key(k) <==> exists|i: int| 0 <= i < l.len() && l[i].0 == k
    &&& forall|i: int| 0 <= i < l.len() ==> m[l[i].0] == l[i].1
}

/// One request applied to a store in state `s`: the store moves to `s2` and
/// answers `r`.
pub open spec fn step(s: StoreView, c: CommandView, s2: StoreView, r: ResponseView) -> bool {
    &&& s2.count == bump(s.count)
    &&& s2.should_terminate == (s.should_terminate || c is Quit)
    &&& match c {
        CommandView::Get { key } => {
            &&& s2.db == s.db
            &&& r == ResponseView::Value(
                if s.db.contains_key(key) {
                    s.db[key]
                } else {
                    Seq::empty()
                },
            )
        },
        CommandView::Put { key, value } => s2.db == s.db.insert(key, value) && r
            == ResponseView::Success,
        CommandView::Delete { key } => s2.db == s.db.remove(key) && r == ResponseView::Success,
        CommandView::Dump => {
            &&& s2.db == s.db
            &&& exists|l: Seq<(Seq<char>, Seq<u8>)>|
                is_listing(l, s.db) && r == ResponseView::Value(dump_text(l))
        },
        CommandView::Quit => s2.db == s.db && r == ResponseView::Success,
    }
}

/// Once `value` is stored under `key`, looking `key` up answers `value`;
/// storing answers `Success`.
pub proof fn lemma_put_then_get(
    s0: StoreView,
    key: Seq<char>,
    value: Seq<u8>,
    s1: StoreView,
    r1: ResponseView,
    s2: StoreView,
    r2: ResponseView,
)
    requires
        step(s0, CommandView::Put { key, value }, s1, r1),
        step(s1, CommandView::Get { key }, s2, r2),
    ensures
        r1 == ResponseView::Success,
        r2 == ResponseView::Value(value),
{
}

/// Once `key` is deleted, looking it up answers the empty value; deleting
/// answers `Success` whether or not the key was ever set.
pub proof fn lemma_delete_then_get(
    s0: StoreView,
    key: Seq<char>,
    s1: StoreView,
    r1: ResponseView,
    s2: StoreView,
    r2: ResponseView,
)
    requires
        step(s0, CommandView::Delete { key }, s1, r1),
        step(s1, CommandView::Get { key }, s2, r2),
    ensures
        r1 == ResponseView::Success,
        r2 == ResponseView::Value(Seq::empty()),
{
}

/// Storing the same value twice leaves the mapping as storing it once, and
/// a lookup afterwards answers that value.
pub proof fn lemma_put_twice(
    s0: StoreView,
    key: Seq<char>,
    value: Seq<u8>,
    s1: StoreView,
    r1: ResponseView,
    s2: StoreView,
    r2: ResponseView,
    s3: StoreView,
    r3: ResponseView,
)
    requires
        step(s0, CommandView::Put { key, value }, s1, r1),
        step(s1, CommandView::Put { key, value }, s2, r2),
        step(s2, CommandView::Get { key }, s3, r3),
    ensures
        s2.db == s1.db,
        r2 == ResponseView::Success,
        r3 == ResponseView::Value(value),
{
    assert(s1.db.insert(key, value) =~= s1.db);
}

/// Deleting the same key twice leaves the mapping as deleting it once, and
/// both answer `Success`.
pub proof fn lemma_delete_twice(
    s0: StoreView,
    key: Seq<char>,
    s1: StoreView,
    r1: ResponseView,
    s2: StoreView,
    r2: ResponseView,
)
    requires
        step(s0, CommandView::Delete { key }, s1, r1),
        step(s1, CommandView::Delete { key }, s2, r2),
    ensures
        s2.db == s1.db,
        r1 == ResponseView::Success,
        r2 == ResponseView::Success,
{
    assert(s1.db.remove(key) =~= s1.db);
}

/// `Quit` is still answered with `Success` and marks the store for
/// termination; no later request clears the mark.
pub proof fn lemma_quit_terminates(
    s0: StoreView,
    s1: StoreView,
    r1: ResponseView,
    c: CommandView,
    s2: StoreView,
    r2: ResponseView,
)
    requires
        step(s0, CommandView::Quit, s1, r1),
        step(s1, c, s2, r2),
    ensures
        r1 == ResponseView::Success,
        s1.should_terminate,
        s2.should_terminate,
{
}

/// The message of the reply to a frame that holds no command.
pub open spec fn parse_error_message() -> Seq<char> {
    "parse error"@
}

/// The in-memory state of the worker.
pub struct Store {
    entries: Vec<(String, Vec<u8>)>,
    count: u64,
    should_terminate: bool,
}

/// Whether no two entries share a key.
pub open spec fn keys_unique(e: Seq<(String, Vec<u8>)>) -> bool {
    forall|i: int, j: int| 0 <= i < j < e.len() ==> e[i].0@ != e[j].0@
}

/// The mapping that a list of entries with unique keys stands for.
pub open spec fn entry_map(e: Seq<(String, Vec<u8>)>) -> Map<Seq<char>, Seq<u8>> {
    Map::new(
        |k: Seq<char>| exists|i: int| 0 <= i < e.len() && e[i].0@ == k,
        |k: Seq<char>| e[choose|i: int| 0 <= i < e.len() && e[i].0@ == k].1@,
    )
}

/// The entries as keys and values, in the order they are held.
pub open spec fn entry_listing(e: Seq<(String, Vec<u8>)>) -> Seq<(Seq<char>, Seq<u8>)> {
    Seq::new(e.len(), |i: int| (e[i].0@, e[i].1@))
}

/// Each entry is found in the mapping under its key.
proof fn lemma_entry_map_at(e: Seq<(String, Vec<u8>)>, i: int)
    requires
        keys_unique(e),
        0 <= i < e.len(),
    ensures
        entry_map(e).contains_key(e[i].0@),
        entry_map(e)[e[i].0@] == e[i].1@,
{
    let k = e[i].0@;
    assert(exists|j: int| 0 <= j < e.len() && e[j].0@ == k);
    let j = choose|j: int| 0 <= j < e.len() && e[j].0@ == k;
    if j < i {
        assert(e[j].0@ != e[i].0@);
    } else if i < j {
        assert(e[i].0@ != e[j].0@);
    }
}

/// A map with the keys of `e` that agrees with each entry is `entry_map(e)`.
proof fn lemma_entry_map_eq(e: Seq<(String, Vec<u8>)>, m: Map<Seq<char>, Seq<u8>>)
    requires
        keys_unique(e),
        forall|k: Seq<char>| m.contains_key(k) <==> exists|i: int| 0 <= i < e.len() && e[i].0@ == k,
        forall|i: int| 0 <= i < e.len() ==> #[trigger] m[e[i].0@] == e[i].1@,
    ensures
        entry_map(e) == m,
{
    assert forall|k: Seq<char>| #[trigger] m.contains_key(k) implies entry_map(e).contains_key(k)
        && entry_map(e)[k] == m[k] by {
        let i = choose|i: int| 0 <= i < e.len() && e[i].0@ == k;
        lemma_entry_map_at(e, i);
    }
    assert(entry_map(e) =~= m);
}

/// The entries, read as keys and values, list the mapping.
proof fn lemma_entry_listing(e: Seq<(String, Vec<u8>)>)
    requires
        keys_unique(e),
    ensures
        is_listing(entry_listing(e), entry_map(e)),
{
    let l = entry_listing(e);
    assert forall|i: int| 0 <= i < l.len() implies entry_map(e)[l[i].0] == l[i].1 by {
        lemma_entry_map_at(e, i);
    }
    assert forall|k: Seq<char>| entry_map(e).contains_key(k) implies exists|i: int|
        0 <= i < l.len() && l[i].0 == k by {
        let i = choose|i: int| 0 <= i < e.len() && e[i].0@ == k;
        assert(l[i].0 == k);
    }
    assert forall|k: Seq<char>| (exists|i: int| 0 <= i < l.len() && l[i].0 == k) implies entry_map(
        e,
    ).contains_key(k) by {
        let i = choose|i: int| 0 <= i < l.len() && l[i].0 == k;
        assert(e[i].0@ == k);
    }
}

impl View for Store {
    type V = StoreView;

    closed spec fn view(&self) -> StoreView {
        StoreView {
            db: entry_map(self.entries@),
            count: self.count as nat,
            should_terminate: self.should_terminate,
        }
    }
}

impl Store {
    #[verifier::type_invariant]
    spec fn well_formed(&self) -> bool {
        keys_unique(self.entries@)
    }

    /// An empty store that has served no request.
    pub fn new() -> (r: Self)
        ensures
            r@.db == Map::<Seq<char>, Seq<u8>>::empty(),
            r@.count == 0,
            !r@.should_terminate,
    {
        let r = Store { entries: Vec::new(), count: 0, should_terminate: false };
        assert(entry_map(r.entries@) =~= Map::<Seq<char>, Seq<u8>>::empty());
        r
    }

    /// Whether a `Quit` has been processed.
    pub fn should_terminate(&self) -> (r: bool)
        ensures
            r == self@.should_terminate,
    {
        self.should_terminate
    }

    /// The number of requests served.
    pub fn count(&self) -> (r: u64)
        ensures
            r == self@.count,
    {
        self.count
    }

    /// The position of the entry for `key`, if there is one.
    fn find(&self, key: &String) -> (r: Option<usize>)
        ensures
            match r {
                Some(i) => i < self.entries@.len() && self.entries@[i as int].0@ == key@,
                None => forall|i: int|
                    0 <= i < self.entries@.len() ==> self.entries@[i].0@ != key@,
            },
    {
        let mut i: usize = 0;
        while i < self.entries.len()
            invariant
                i <= self.entries@.len(),
                forall|j: int| 0 <= j < i ==> self.entries@[j].0@ != key@,
            decreases self.entries.len() - i,
        {
            if self.entries[i].0 == *key {
                return Some(i);
            }
            i += 1;
        }
        None
    }

    /// The dump of the entries, in the order they are held.
    fn dump(&self) -> (r: Vec<u8>)
        ensures
            r@ == dump_text(entry_listing(self.entries@)),
    {
        let ghost l = entry_listing(self.entries@);
        let mut out: Vec<u8> = Vec::new();
        out.push(123);
        let mut i: usize = 0;
        while i < self.entries.len()
            invariant
                i <= self.entries@.len(),
                l == entry_listing(self.entries@),
                out@ == seq![123u8] + entries_text(l.take(i as int)),
            decreases self.entries.len() - i,
        {
            let ghost before = out@;
            if i > 0 {
                out.push(44);
                out.push(32);
            }
            push_all(&mut out, string_bytes(&self.entries[i].0));
            out.push(58);
            out.push(32);
            push_all(&mut out, self.entries[i].1.as_slice());
            proof {
                let t = l.take(i + 1);
                assert(t.drop_last() =~= l.take(i as int));
                assert(t.last() == l[i as int]);
                if i == 0 {
                    assert(entries_text(l.take(0)) =~= Seq::<u8>::empty());
                    assert(out@ =~= seq![123u8] + entries_text(t));
                } else {
                    assert(out@ =~= seq![123u8] + entries_text(t));
                }
            }
            i += 1;
        }
        out.push(125);
        assert(l.take(i as int) =~= l);
        assert(out@ =~= dump_text(l));
        out
    }

    /// Applies one command: looks up, stores or removes a key, dumps the
    /// mapping, or marks the store for termination; counts the request.
    pub fn apply(&mut self, cmd: Command) -> (r: Response)
        ensures
            step(old(self)@, cmd@, final(self)@, r@),
    {
        proof {
            use_type_invariant(&*self);
        }
        let ghost e = self.entries@;
        let ghost m = entry_map(e);
        let ghost c = cmd@;
        let r = match cmd {
            Command::Get { key } => match self.find(&key) {
                Some(i) => {
                    proof {
                        lemma_entry_map_at(e, i as int);
                    }
                    let v = self.entries[i].1.as_slice();
                    let bytes = copy_range(v, 0, v.len());
                    assert(bytes@ =~= m[key@]);
                    Response::Value(WrappedValue::from_bytes(bytes))
                },
                None => {
                    assert(!m.contains_key(key@));
                    Response::Value(WrappedValue::empty())
                },
            },
            Command::Put { key, value } => {
                let bytes = value.to_bytes();
                let ghost k = key@;
                let ghost v = bytes@;
                let found = self.find(&key);
                let mut entries: Vec<(String, Vec<u8>)> = Vec::new();
                std::mem::swap(&mut entries, &mut self.entries);
                match found {
                    Some(i) => {
                        entries.set(i, (key, bytes));
                        proof {
                            let e2 = entries@;
                            assert forall|j: int| 0 <= j < e2.len() implies #[trigger] e2[j].0@
                                == e[j].0@ by {}
                            assert(keys_unique(e2));
                            assert forall|j: int| 0 <= j < e2.len() implies #[trigger] m.insert(
                                k,
                                v,
                            )[e2[j].0@] == e2[j].1@ by {
                                if j != i {
                                    lemma_entry_map_at(e, j);
                                    assert(e[j].0@ != e[i as int].0@);
                                }
                            }
                            assert forall|kk: Seq<char>| m.insert(k, v).contains_key(kk) implies exists|
                                j: int,
                            | 0 <= j < e2.len() && e2[j].0@ == kk by {
                                if kk != k {
                                    let j = choose|j: int| 0 <= j < e.len() && e[j].0@ == kk;
                                    assert(e2[j].0@ == kk);
                                } else {
                                    assert(e2[i as int].0@ == kk);
                                }
                            }
                            lemma_entry_map_eq(e2, m.insert(k, v));
                        }
                    },
                    None => {
                        entries.push((key, bytes));
                        proof {
                            let e2 = entries@;
                            assert forall|j: int| 0 <= j < e.len() implies #[trigger] e2[j] == e[j] by {}
                            assert(keys_unique(e2));
                            assert forall|j: int| 0 <= j < e2.len() implies #[trigger] m.insert(
                                k,
                                v,
                            )[e2[j].0@] == e2[j].1@ by {
                                if j < e.len() {
                                    lemma_entry_map_at(e, j);
                                }
                            }
                            assert forall|kk: Seq<char>| m.insert(k, v).contains_key(kk) implies exists|
                                j: int,
                            | 0 <= j < e2.len() && e2[j].0@ == kk by {
                                if kk != k {
                                    let j = choose|j: int| 0 <= j < e.len() && e[j].0@ == kk;
                                    assert(e2[j].0@ == kk);
                                } else {
                                    assert(e2[e.len() as int].0@ == kk);
                                }
                            }
                            lemma_entry_map_eq(e2, m.insert(k, v));
                        }
                    },
                }
                self.entries = entries;
                Response::Success
            },
            Command::Delete { key } => {
                let ghost k = key@;
                let found = self.find(&key);
                match found {
                    Some(i) => {
                        let mut entries: Vec<(String, Vec<u8>)> = Vec::new();
                        std::mem::swap(&mut entries, &mut self.entries);
                        entries.remove(i);
                        proof {
                            let e2 = entries@;
                            assert forall|j: int| 0 <= j < e2.len() implies #[trigger] e2[j] == e[if j
                                < i {
                                j
                            } else {
                                j + 1
                            }] by {}
                            assert(keys_unique(e2));
                            assert forall|j: int| 0 <= j < e2.len() implies #[trigger] m.remove(k)[e2[j].0@]
                                == e2[j].1@ by {
                                let jj = if j < i {
                                    j
                                } else {
                                    j + 1
                                };
                                lemma_entry_map_at(e, jj);
                                assert(e[jj].0@ != e[i as int].0@);
                            }
                            assert forall|kk: Seq<char>| m.remove(k).contains_key(kk) implies exists|
                                j: int,
                            | 0 <= j < e2.len() && e2[j].0@ == kk by {
                                let jj = choose|j: int| 0 <= j < e.len() && e[j].0@ == kk;
                                if jj < i {
                                    assert(e2[jj].0@ == kk);
                                } else {
                                    assert(jj != i);
                                    assert(e2[jj - 1].0@ == kk);
                                }
                            }
                            assert forall|kk: Seq<char>| (exists|j: int| 0 <= j < e2.len() && e2[j].0@ == kk)
                                implies m.remove(k).contains_key(kk) by {
                                let j = choose|j: int| 0 <= j < e2.len() && e2[j].0@ == kk;
                                let jj = if j < i {
                                    j
                                } else {
                                    j + 1
                                };
                                assert(e[jj].0@ == kk);
                                assert(e[jj].0@ != e[i as int].0@);
                            }
                            lemma_entry_map_eq(e2, m.remove(k));
                        }
                        self.entries = entries;
                    },
                    None => {
                        assert(m.remove(k) =~= m);
                    },
                }
                Response::Success
            },
            Command::Dump => {
                let text = self.dump();
                proof {
                    lemma_entry_listing(e);
                }
                let r = Response::Value(WrappedValue::from_bytes(text));
                assert(is_listing(entry_listing(e), m) && r@ == ResponseView::Value(
                    dump_text(entry_listing(e)),
                ));
                r
            },
            Command::Quit => {
                self.should_terminate = true;
                Response::Success
            },
        };
        if self.count < u64::MAX {
            self.count = self.count + 1;
        }
        r
    }

    /// Serves one request frame (without its newline) and returns the reply
    /// frame with its newline. A frame that holds no command is answered
    /// with an error and leaves the store as it was.
    pub fn handle_frame(&mut self, frame: &[u8]) -> (r: Vec<u8>)
        ensures
            match parse_command(frame@) {
                Some(c) => exists|resp: ResponseView|
                    step(old(self)@, c, final(self)@, resp) && r@ == response_frame(resp).push(
                        10u8,
                    ),
                None => final(self)@ == old(self)@ && r@ == response_frame(
                    ResponseView::Error(parse_error_message()),
                ).push(10u8),
            },
    {
        let resp = match Command::decode(frame) {
            Ok(cmd) => self.apply(cmd),
            Err(_) => Response::Error(String::from_str("parse error")),
        };
        let mut out = resp.encode();
        out.push(10);
        out
    }
}

} // verus!
