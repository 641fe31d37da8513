//! What the machine remembers: a fixed run of bytes, and the dictionary of
//! defined words.

use vstd::prelude::*;
use crate::bytecode::ByteCode;

verus! {

/// The number of bytes of memory. Addresses run from 0 to `CAPACITY - 1`.
pub const CAPACITY: usize = 64000;

/// Why a memory access failed.
#[derive(Debug, Clone, Copy, PartialEq, Eq)]
pub enum MemoryError {
    /// The address is at or beyond the capacity.
    OutOfRange,
}

/// What a memory error says.
pub open spec fn memory_message(e: MemoryError) -> Seq<char> {
    "no memory at index"@
}

impl MemoryError {
    /// This error in words.
    pub fn message(&self) -> (s: String)
        ensures
            s@ == memory_message(*self),
    {
        String::from_str("no memory at index")
    }
}

/// One definition: a name and the bytecode it was bound to.
struct Definition {
    name: String,
    code: ByteCode,
}

/// The bytecodes that the definitions in `log` bind to `name`, oldest first.
spec fn history(log: Seq<Definition>, name: Seq<char>) -> Seq<Seq<u8>>
    decreases log.len(),
{
    if log.len() == 0 {
        Seq::empty()
    } else if log.last().name@ == name {
        history(log.drop_last(), name).push(log.last().code@)
    } else {
        history(log.drop_last(), name)
    }
}

/// One more definition adds to the history of its own name and to no other.
proof fn lemma_history_push(log: Seq<Definition>, d: Definition, name: Seq<char>)
    ensures
        history(log.push(d), name) == if d.name@ == name {
            history(log, name).push(d.code@)
        } else {
            history(log, name)
        },
{
    assert(log.push(d).drop_last() == log);
}

/// The contents of some bytecodes.
pub open spec fn bodies(codes: Seq<ByteCode>) -> Seq<Seq<u8>> {
    Seq::new(codes.len(), |i: int| codes[i]@)
}

/// What `words` holds for `name`: its definitions, oldest first, and none if
/// the name was never defined.
pub open spec fn definitions_of(
    words: Map<Seq<char>, Seq<Seq<u8>>>,
    name: Seq<char>,
) -> Seq<Seq<u8>> {
    if words.contains_key(name) {
        words[name]
    } else {
        Seq::empty()
    }
}

/// The dictionary `words` after `name` has been bound to `code`: the new
/// definition comes after those that `name` already had.
pub open spec fn defined(
    words: Map<Seq<char>, Seq<Seq<u8>>>,
    name: Seq<char>,
    code: Seq<u8>,
) -> Map<Seq<char>, Seq<Seq<u8>>> {
    words.insert(name, definitions_of(words, name).push(code))
}

/// Redefinition shadows and does not destroy: after a definition, the name's
/// newest definition is the new one, its earlier definitions are all still
/// there in their order, and no other name is touched.
pub proof fn lemma_newest_definition(
    words: Map<Seq<char>, Seq<Seq<u8>>>,
    name: Seq<char>,
    code: Seq<u8>,
)
    ensures
        defined(words, name, code).contains_key(name),
        defined(words, name, code)[name].last() == code,
        defined(words, name, code)[name].drop_last() == definitions_of(words, name),
        forall|other: Seq<char>|
            other != name ==> #[trigger] definitions_of(defined(words, name, code), other)
                == definitions_of(words, other),
{
}

/// A byte-addressed store of fixed size, together with the dictionary.
///
/// The dictionary maps each defined name to all the bytecodes it was ever
/// bound to, oldest first. Definitions are only ever added.
pub struct Memory {
    inner: [u8; 64000],
    definitions: Vec<Definition>,
}

impl Memory {
    /// The bytes of memory, by address.
    pub closed spec fn bytes(&self) -> Seq<u8> {
        self.inner@
    }

    /// The dictionary: for each defined name, its definitions, oldest first.
    pub closed spec fn words(&self) -> Map<Seq<char>, Seq<Seq<u8>>> {
        Map::new(
            |name: Seq<char>| history(self.definitions@, name).len() > 0,
            |name: Seq<char>| history(self.definitions@, name),
        )
    }

    /// Memory filled with zeros, and an empty dictionary.
    pub fn new() -> (m: Memory)
        ensures
            m.bytes() == Seq::new(CAPACITY as nat, |i: int| 0u8),
            m.words() == Map::<Seq<char>, Seq<Seq<u8>>>::empty(),
    {
        let m = Memory { inner: [0u8; 64000], definitions: Vec::new() };
        m
    }

    /// Memory always holds exactly `CAPACITY` bytes.
    pub proof fn lemma_size(&self)
        ensures
            self.bytes().len() == CAPACITY,
    {
    }

    /// Every name in the dictionary has at least one definition.
    pub proof fn lemma_defined_names(&self)
        ensures
            forall|name: Seq<char>| #[trigger]
                self.words().contains_key(name) ==> self.words()[name].len() > 0,
    {
    }

    /// The byte at address `idx`.
    pub fn fetch(&self, idx: usize) -> (r: Result<&u8, MemoryError>)
        ensures
            idx < CAPACITY ==> r == Ok::<&u8, MemoryError>(&self.bytes()[idx as int]),
            idx >= CAPACITY ==> r == Err::<&u8, MemoryError>(MemoryError::OutOfRange),
    {
        if idx < CAPACITY {
            Ok(&self.inner[idx])
        } else {
            Err(MemoryError::OutOfRange)
        }
    }

    /// Writes `val` at address `idx` and hands it back.
    pub fn store(&mut self, idx: usize, val: u8) -> (r: Result<u8, MemoryError>)
        ensures
            final(self).words() == old(self).words(),
            idx < CAPACITY ==> r == Ok::<u8, MemoryError>(val)
                && final(self).bytes() == old(self).bytes().update(idx as int, val),
            idx >= CAPACITY ==> r == Err::<u8, MemoryError>(MemoryError::OutOfRange)
                && final(self).bytes() == old(self).bytes(),
    {
        if idx < CAPACITY {
            self.inner[idx] = val;
            Ok(val)
        } else {
            Err(MemoryError::OutOfRange)
        }
    }

    /// Binds `name` to `code`. Earlier definitions of `name` are kept, and
    /// this one comes after them.
    pub fn define(&mut self, name: String, code: ByteCode)
        ensures
            final(self).bytes() == old(self).bytes(),
            final(self).words() == defined(old(self).words(), name@, code@),
    {
        let ghost added = name@;
        let ghost body = code@;
        let d = Definition { name, code };
        let ghost entry = d;
        self.definitions.push(d);
        proof {
            assert forall|n: Seq<char>|
                history(self.definitions@, n) == if n == added {
                    history(old(self).definitions@, n).push(body)
                } else {
                    history(old(self).definitions@, n)
                } by {
                lemma_history_push(old(self).definitions@, entry, n);
            }
            assert(definitions_of(old(self).words(), added) =~= history(
                old(self).definitions@,
                added,
            ));
        }
    }

    /// All the definitions of `name`, oldest first.
    pub fn definitions(&self, name: &str) -> (r: Vec<ByteCode>)
        ensures
            bodies(r@) == definitions_of(self.words(), name@),
    {
        let wanted = String::from_str(name);
        let mut found: Vec<ByteCode> = Vec::new();
        let mut i: usize = 0;
        while i < self.definitions.len()
            invariant
                i <= self.definitions.len(),
                wanted@ == name@,
                bodies(found@) == history(self.definitions@.take(i as int), name@),
            decreases self.definitions.len() - i,
        {
            assert(self.definitions@.take(i + 1).drop_last() == self.definitions@.take(i as int));
            if self.definitions[i].name == wanted {
                let code = self.definitions[i].code.clone();
                found.push(code);
            }
            i = i + 1;
        }
        assert(self.definitions@.take(i as int) == self.definitions@);
        found
    }

    /// The newest definition of `name`, if it has any.
    pub fn lookup(&self, name: String) -> (r: Option<ByteCode>)
        ensures
            match r {
                Some(code) => self.words().contains_key(name@)
                    && code@ == self.words()[name@].last(),
                None => !self.words().contains_key(name@),
            },
    {
        let mut i: usize = self.definitions.len();
        assert(self.definitions@.take(i as int) == self.definitions@);
        while i > 0
            invariant
                i <= self.definitions.len(),
                history(self.definitions@, name@) == history(
                    self.definitions@.take(i as int),
                    name@,
                ),
            decreases i,
        {
            i = i - 1;
            assert(self.definitions@.take(i + 1).drop_last() == self.definitions@.take(i as int));
            if self.definitions[i].name == name {
                return Some(self.definitions[i].code.clone());
            }
        }
        None
    }
}

} // verus!
