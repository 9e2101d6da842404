//! Loaders: where the bytes of a module come from.
use crate::ast::{nested_at, Node, NodeView};
use crate::error::{agrees, gives_bytes, gives_text, ErrorView, FeatureError, SWLError};
use crate::parser::{lemma_parse_nested, parse_text, Parser};
use crate::text::push_text;
use vstd::hash_map::StringHashMap;
use vstd::prelude::*;
use vstd::utf8::{decode_utf8, valid_utf8};

verus! {

/// What a linker needs from its surroundings to find the modules that a module names.
///
/// A loader may say in `identity` and `contents` what it gives for a path. Where it says
/// `Some`, the loader as it stands decides the answer, and `canonicalize` and `load_raw`
/// give that answer. Where it says `None`, as every loader does that says nothing else,
/// something else decides: a file system, for one. What a loader has said stays so
/// through every call.
pub trait Loader {
    /// The identity that `canonicalize` gives the path, or its failure, where the loader
    /// as it stands decides it.
    open spec fn identity(&self, path: Seq<char>) -> Option<Result<Seq<char>, ErrorView>> {
        None
    }

    /// The bytes that `load_raw` finds at the path, or its failure, where the loader as
    /// it stands decides it.
    open spec fn contents(&self, path: Seq<char>) -> Option<Result<Seq<u8>, ErrorView>> {
        None
    }

    /// Whether `load_module` is known to do what is written here, and no more: it loads
    /// the bytes at the path and parses them.
    open spec fn plain(&self) -> bool {
        false
    }

    /// The identity of the file that `path` names. Two paths with one identity name one file.
    fn canonicalize(&mut self, path: &str) -> (r: Result<String, SWLError>)
        ensures
            old(self).identity(path@) matches Some(known) ==> gives_text(r, known),
            forall|other: Seq<char>|
                #![trigger old(self).identity(other)]
                #![trigger final(self).identity(other)]
                old(self).identity(other) is Some ==> final(self).identity(other) == old(self).identity(other),
            forall|other: Seq<char>|
                #![trigger old(self).contents(other)]
                #![trigger final(self).contents(other)]
                old(self).contents(other) is Some ==> final(self).contents(other) == old(self).contents(other),
            final(self).plain() == old(self).plain(),
    ;

    /// The bytes of the file that `path` names.
    fn load_raw(&mut self, path: &str) -> (r: Result<Vec<u8>, SWLError>)
        ensures
            old(self).contents(path@) matches Some(known) ==> gives_bytes(r, known),
            forall|other: Seq<char>|
                #![trigger old(self).identity(other)]
                #![trigger final(self).identity(other)]
                old(self).identity(other) is Some ==> final(self).identity(other) == old(self).identity(other),
            forall|other: Seq<char>|
                #![trigger old(self).contents(other)]
                #![trigger final(self).contents(other)]
                old(self).contents(other) is Some ==> final(self).contents(other) == old(self).contents(other),
            final(self).plain() == old(self).plain(),
    ;

    /// The module that the file at `path` holds.
    fn load_module(&mut self, path: &str) -> (r: Result<Node, SWLError>)
        ensures
            old(self).plain() ==> (old(self).contents(path@) matches Some(known) ==> agrees(r, parsed(known))),
            r matches Ok(node) ==> nested_at(node@, 0),
            forall|other: Seq<char>|
                #![trigger old(self).identity(other)]
                #![trigger final(self).identity(other)]
                old(self).identity(other) is Some ==> final(self).identity(other) == old(self).identity(other),
            forall|other: Seq<char>|
                #![trigger old(self).contents(other)]
                #![trigger final(self).contents(other)]
                old(self).contents(other) is Some ==> final(self).contents(other) == old(self).contents(other),
            final(self).plain() == old(self).plain(),
    {
        let contents = self.load_raw(path)?;
        module_from_bytes(contents)
    }
}

/// Whether all that the loader `before` decides, the loader `after` decides alike.
pub open spec fn lasting<L: Loader>(before: &L, after: &L) -> bool {
    &&& forall|path: Seq<char>|
        #![trigger before.identity(path)]
        #![trigger after.identity(path)]
        before.identity(path) is Some ==> after.identity(path) == before.identity(path)
    &&& forall|path: Seq<char>|
        #![trigger before.contents(path)]
        #![trigger after.contents(path)]
        before.contents(path) is Some ==> after.contents(path) == before.contents(path)
}

/// What lasts from a first loader to a second, and from the second to a third, lasts
/// from the first to the third.
pub proof fn lemma_lasting_on<L: Loader>(first: &L, second: &L, third: &L)
    requires
        lasting(first, second),
        lasting(second, third),
    ensures
        lasting(first, third),
{
    assert forall|path: Seq<char>| first.identity(path) is Some implies #[trigger] third.identity(path)
        == first.identity(path) by {
        assert(second.identity(path) == first.identity(path));
    }
    assert forall|path: Seq<char>| first.contents(path) is Some implies #[trigger] third.contents(path)
        == first.contents(path) by {
        assert(second.contents(path) == first.contents(path));
    }
}

/// The module that the bytes hold, where there are bytes, or the failure to find them.
pub open spec fn parsed(contents: Result<Seq<u8>, ErrorView>) -> Result<NodeView, ErrorView> {
    match contents {
        Ok(bytes) => module_of_bytes(bytes),
        Err(e) => Err(e),
    }
}

/// `String::from_utf8` of std: the text that the bytes encode, where they are valid UTF-8.
#[verifier::external_body]
fn text_from_utf8(bytes: Vec<u8>) -> (r: Option<String>)
    ensures
        match r {
            Some(text) => valid_utf8(bytes@) && text@ == decode_utf8(bytes@),
            None => !valid_utf8(bytes@),
        },
{
    String::from_utf8(bytes).ok()
}

/// The module that the bytes of a file hold.
pub open spec fn module_of_bytes(bytes: Seq<u8>) -> Result<NodeView, ErrorView> {
    if !valid_utf8(bytes) {
        Err(ErrorView::InvalidUtf8)
    } else {
        match parse_text(decode_utf8(bytes)) {
            Ok(n) => Ok(n),
            Err(e) => Err(ErrorView::Parser(e)),
        }
    }
}

/// Decodes the bytes of a file as UTF-8 and parses the text as a module.
pub fn module_from_bytes(bytes: Vec<u8>) -> (r: Result<Node, SWLError>)
    ensures
        agrees(r, module_of_bytes(bytes@)),
        r matches Ok(node) ==> nested_at(node@, 0),
{
    let text = match text_from_utf8(bytes) {
        Some(text) => text,
        None => {
            return Err(SWLError::Other(FeatureError::InvalidUtf8));
        },
    };
    proof {
        lemma_parse_nested(text@);
    }
    let mut parser = Parser::new(text.as_str());
    parser.parse()
}

/// A loader that holds its files in memory, each under its path.
pub struct MockLoader {
    pub map: StringHashMap<Vec<u8>>,
}

impl MockLoader {
    /// A loader without files.
    pub fn new() -> (loader: MockLoader)
        ensures
            loader.map@ == Map::<Seq<char>, Vec<u8>>::empty(),
    {
        MockLoader { map: StringHashMap::new() }
    }

    /// Puts a file under `path`, in place of the one that was there.
    pub fn insert(&mut self, path: &str, contents: Vec<u8>)
        ensures
            final(self).map@ == old(self).map@.insert(path@, contents),
    {
        let mut key = String::new();
        push_text(&mut key, path);
        assert(key@ == path@);
        self.map.insert(key, contents);
    }
}

/// A copy of `bytes`.
pub fn copy_bytes(bytes: &Vec<u8>) -> (copy: Vec<u8>)
    ensures
        copy@ == bytes@,
{
    let mut copy: Vec<u8> = Vec::new();
    let mut i: usize = 0;
    while i < bytes.len()
        invariant
            i <= bytes.len(),
            copy@ == bytes@.take(i as int),
        decreases bytes.len() - i,
    {
        copy.push(bytes[i]);
        i += 1;
    }
    assert(bytes@.take(bytes@.len() as int) == bytes@);
    copy
}

impl MockLoader {
    /// What stands under `path`: the bytes that were put there, or the failure to find any.
    pub open spec fn stored(&self, path: Seq<char>) -> Result<Seq<u8>, ErrorView> {
        if self.map@.contains_key(path) {
            Ok(self.map@[path]@)
        } else {
            Err(ErrorView::Simple("Unknown file "@ + path))
        }
    }
}

impl Loader for MockLoader {
    /// A path is its own identity.
    open spec fn identity(&self, path: Seq<char>) -> Option<Result<Seq<char>, ErrorView>> {
        Some(Ok(path))
    }

    /// The bytes under the path.
    open spec fn contents(&self, path: Seq<char>) -> Option<Result<Seq<u8>, ErrorView>> {
        Some(self.stored(path))
    }

    /// Modules are loaded and parsed, no more.
    open spec fn plain(&self) -> bool {
        true
    }

    /// A path is its own identity.
    fn canonicalize(&mut self, path: &str) -> (r: Result<String, SWLError>)
        ensures
            r matches Ok(id) && id@ == path@,
            final(self).map@ == old(self).map@,
    {
        let mut id = String::new();
        push_text(&mut id, path);
        Ok(id)
    }

    /// The bytes that were put under `path`.
    fn load_raw(&mut self, path: &str) -> (r: Result<Vec<u8>, SWLError>)
        ensures
            final(self).map@ == old(self).map@,
            match r {
                Ok(bytes) => old(self).map@.contains_key(path@) && bytes@ == old(self).map@[path@]@,
                Err(e) => !old(self).map@.contains_key(path@) && e@ == ErrorView::Simple("Unknown file "@ + path@),
            },
    {
        match self.map.get(path) {
            Some(bytes) => Ok(copy_bytes(bytes)),
            None => {
                let mut message = String::new();
                push_text(&mut message, "Unknown file ");
                push_text(&mut message, path);
                Err(SWLError::Simple(message))
            },
        }
    }
}

} // verus!
