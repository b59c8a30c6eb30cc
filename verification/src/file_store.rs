//! The store of open temporary files behind `std.tmpfile()`: files are kept
//! under increasing integer ids; plus the decisions of `seek` and `getline`,
//! which the host makes around its own reads.
use crate::repl::collect_chars;
use std::collections::HashMap;
use vstd::prelude::*;

verus! {

broadcast use vstd::std_specs::hash::group_hash_axioms;

/// Open files by id; `F` is the host's file handle.
pub struct FileStore<F> {
    files: HashMap<u64, F>,
    next_id: u64,
}

impl<F> View for FileStore<F> {
    type V = Map<u64, F>;

    closed spec fn view(&self) -> Map<u64, F> {
        self.files@
    }
}

impl<F> FileStore<F> {
    /// The id the next stored file gets.
    pub closed spec fn next(self) -> u64 {
        self.next_id
    }

    /// Every stored id was handed out before: it is positive and below the
    /// next id.
    pub closed spec fn wf(self) -> bool {
        &&& self.next_id >= 1
        &&& forall|id: u64| #[trigger] self.files@.contains_key(id) ==> 1 <= id < self.next_id
    }

    /// An empty store whose first id is 1.
    pub fn new() -> (s: Self)
        ensures
            s.wf(),
            s@ == Map::<u64, F>::empty(),
            s.next() == 1,
    {
        FileStore { files: HashMap::new(), next_id: 1 }
    }

    /// Hands out the next id.
    fn get_next_file_id(&mut self) -> (id: u64)
        requires
            old(self).next() < u64::MAX,
        ensures
            id == old(self).next(),
            final(self).next() == old(self).next() + 1,
            final(self)@ == old(self)@,
    {
        let current = self.next_id;
        self.next_id = current + 1;
        current
    }

    /// The id the next stored file gets.
    pub fn next_file_id(&self) -> (r: u64)
        ensures
            r == self.next(),
    {
        self.next_id
    }

    /// Whether a file is stored under `id`.
    pub fn contains(&self, id: u64) -> (r: bool)
        ensures
            r == self@.contains_key(id),
    {
        self.files.contains_key(&id)
    }

    /// The file stored under `id`.
    pub fn get(&self, id: u64) -> (r: Option<&F>)
        ensures
            match r {
                Some(f) => self@.contains_key(id) && *f == self@[id],
                None => !self@.contains_key(id),
            },
    {
        self.files.get(&id)
    }
}

/// Stores `file` under a fresh id and returns the id.
pub fn vm_store_file<F>(store: &mut FileStore<F>, file: F) -> (id: u64)
    requires
        old(store).wf(),
        old(store).next() < u64::MAX,
    ensures
        final(store).wf(),
        id == old(store).next(),
        !old(store)@.contains_key(id),
        final(store)@ == old(store)@.insert(id, file),
        final(store).next() == old(store).next() + 1,
{
    let id = store.get_next_file_id();
    store.files.insert(id, file);
    proof {
        assert forall|k: u64| #[trigger] store.files@.contains_key(k) implies 1 <= k < store.next_id by {
            if k != id {
                assert(old(store)@.contains_key(k));
            }
        }
    }
    id
}

/// Closes the file stored under `file_id`: it leaves the store; an unknown
/// id changes nothing.
pub fn vm_file_close<F>(store: &mut FileStore<F>, file_id: u64)
    requires
        old(store).wf(),
    ensures
        final(store).wf(),
        final(store)@ == old(store)@.remove(file_id),
        final(store).next() == old(store).next(),
{
    store.files.remove(&file_id);
    proof {
        assert forall|k: u64| #[trigger] store.files@.contains_key(k) implies 1 <= k < store.next_id by {
            assert(old(store)@.contains_key(k));
        }
    }
}

/// A stored file, once closed, is gone; other files stay as they were.
pub proof fn law_close_after_store<F>(before: Map<u64, F>, id: u64, file: F, other: u64)
    requires
        !before.contains_key(id),
        other != id,
    ensures
        before.insert(id, file).remove(id) == before,
        before.insert(id, file).remove(other).contains_key(id),
        before.insert(id, file).remove(other)[id] == file,
{
    assert(before.insert(id, file).remove(id) =~= before);
}

/// Where `seek(offset, whence)` moves the file position.
#[derive(Clone, Copy, Debug, PartialEq, Eq, Structural)]
pub enum SeekTarget {
    /// From the start of the file.
    Start(u64),
    /// From the current position.
    Current(i64),
    /// From the end of the file.
    End(i64),
}

/// `whence` 0, 1 and 2 select SEEK_SET, SEEK_CUR and SEEK_END; any other
/// value seeks to the start. An offset from the start is taken as unsigned,
/// so a negative one wraps.
pub open spec fn spec_seek_target(offset: i64, whence: i32) -> SeekTarget {
    if whence == 0 {
        SeekTarget::Start(offset as u64)
    } else if whence == 1 {
        SeekTarget::Current(offset)
    } else if whence == 2 {
        SeekTarget::End(offset)
    } else {
        SeekTarget::Start(0)
    }
}

pub fn seek_target(offset: i64, whence: i32) -> (r: SeekTarget)
    ensures
        r == spec_seek_target(offset, whence),
{
    if whence == 0 {
        SeekTarget::Start(offset as u64)
    } else if whence == 1 {
        SeekTarget::Current(offset)
    } else if whence == 2 {
        SeekTarget::End(offset)
    } else {
        SeekTarget::Start(0)
    }
}

/// What `seek` answers: the new position, or -1 when the file is unknown
/// or the host's seek failed. The position is reported as a signed number.
pub fn seek_answer(result: Option<u64>) -> (r: i64)
    ensures
        match result {
            Some(pos) => r == pos as i64,
            None => r == -1,
        },
{
    match result {
        Some(pos) => pos as i64,
        None => -1,
    }
}

/// The state of `getline` while it reads a file one byte at a time.
pub struct LineReader {
    /// The bytes of the line so far, carriage returns left out.
    pub line: Vec<u8>,
    /// Whether any byte was read.
    pub read_any: bool,
}

impl LineReader {
    pub fn new() -> (r: Self)
        ensures
            r.line@.len() == 0,
            !r.read_any,
    {
        LineReader { line: Vec::new(), read_any: false }
    }

    /// Takes the outcome of one read: `Some(b)` when byte `b` was read,
    /// `None` at the end of the file or on a read error. Returns whether
    /// the line is complete.
    pub fn feed(&mut self, byte: Option<u8>) -> (finished: bool)
        ensures
            match byte {
                None => finished && final(self).line@ == old(self).line@ && final(self).read_any
                    == old(self).read_any,
                Some(b) => {
                    &&& final(self).read_any
                    &&& finished == (b == 10)
                    &&& final(self).line@ == if b == 10 || b == 13 {
                        old(self).line@
                    } else {
                        old(self).line@.push(b)
                    }
                },
            },
    {
        match byte {
            None => true,
            Some(b) => {
                self.read_any = true;
                if b == 10 {
                    return true;
                }
                if b != 13 {
                    self.line.push(b);
                }
                false
            },
        }
    }

    /// The line `getline` returns: `None` when nothing at all was read.
    pub fn finish(self) -> (r: Option<Vec<u8>>)
        ensures
            match r {
                Some(l) => self.read_any && l@ == self.line@,
                None => !self.read_any,
            },
    {
        if self.read_any {
            Some(self.line)
        } else {
            None
        }
    }
}

/// One argument of `puts`, as the file receives it.
pub enum PutsArg {
    /// A string, already in UTF-8.
    Text(String),
    /// A number, already formatted by the engine.
    Number(String),
    Boolean(bool),
    /// Any other value, which is skipped.
    Other,
}

/// The text an argument contributes.
pub open spec fn puts_piece(a: PutsArg) -> Seq<char> {
    match a {
        PutsArg::Text(s) => s@,
        PutsArg::Number(s) => s@,
        PutsArg::Boolean(b) => if b {
            seq!['t', 'r', 'u', 'e']
        } else {
            seq!['f', 'a', 'l', 's', 'e']
        },
        PutsArg::Other => Seq::empty(),
    }
}

/// The text `puts(args...)` writes: the pieces of the arguments, in order.
pub open spec fn puts_text(args: Seq<PutsArg>) -> Seq<char>
    decreases args.len(),
{
    if args.len() == 0 {
        Seq::empty()
    } else {
        puts_text(args.drop_last()) + puts_piece(args.last())
    }
}

/// The characters `puts` writes for `args`.
pub fn vm_file_puts_text(args: &Vec<PutsArg>) -> (r: Vec<char>)
    ensures
        r@ == puts_text(args@),
{
    let mut buf: Vec<char> = Vec::new();
    let mut i: usize = 0;
    while i < args.len()
        invariant
            i <= args@.len(),
            buf@ == puts_text(args@.take(i as int)),
        decreases args.len() - i,
    {
        assert(args@.take(i + 1).drop_last() =~= args@.take(i as int));
        let mut piece: Vec<char> = match &args[i] {
            PutsArg::Text(s) => collect_chars(s.as_str()),
            PutsArg::Number(s) => collect_chars(s.as_str()),
            PutsArg::Boolean(b) => {
                if *b {
                    let t = "true";
                    proof {
                        reveal_strlit("true");
                    }
                    collect_chars(t)
                } else {
                    let f = "false";
                    proof {
                        reveal_strlit("false");
                    }
                    collect_chars(f)
                }
            },
            PutsArg::Other => Vec::new(),
        };
        assert(piece@ == puts_piece(args@[i as int]));
        buf.append(&mut piece);
        assert(buf@ =~= puts_text(args@.take(i + 1)));
        i = i + 1;
    }
    assert(args@.take(i as int) =~= args@);
    buf
}

} // verus!
