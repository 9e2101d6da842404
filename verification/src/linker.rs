//! The linker: a loader, the ledger of what was loaded, and the features to run.
use crate::ast::{nested_at, Node, NodeView};
use crate::error::{agrees, fails_with, gives_bytes, gives_text, ErrorView, SWLError};
use crate::eval::{lemma_persisting_on, persisting, Evaluator};
use crate::features::{apply, lemma_determined_lasts, lemma_pipeline_lasts, pipeline, Feature};
use crate::parser::{parse_text, Parser};
use crate::loader::{lasting, lemma_lasting_on, module_from_bytes, module_of_bytes, parsed, Loader};
use crate::text::push_text;
use vstd::hash_set::StringHashSet;
use vstd::prelude::*;

verus! {

/// The module without items that stands for a file that was loaded before.
pub open spec fn empty_module() -> NodeView {
    NodeView { name: "module"@, depth: 0, items: Seq::empty() }
}

/// What a linker with the loader and the ledger finds at the path, where the two decide
/// it: the failure to name the file, the module without items for a file that was loaded
/// before, and else what the bytes at the path hold.
pub open spec fn found_at<L: Loader>(loader: &L, ledger: Set<Seq<char>>, path: Seq<char>) -> Option<
    Result<NodeView, ErrorView>,
> {
    match loader.identity(path) {
        None => None,
        Some(Err(e)) => Some(Err(e)),
        Some(Ok(id)) => if ledger.contains(id) {
            Some(Ok(empty_module()))
        } else {
            match loader.contents(path) {
                None => None,
                Some(found) => Some(parsed(found)),
            }
        },
    }
}

/// The ledger of a linker with the loader behind the loading of the path, where the two
/// decide it: a file that was not loaded before enters it when its bytes are read.
pub open spec fn ledger_behind<L: Loader>(loader: &L, ledger: Set<Seq<char>>, path: Seq<char>) -> Set<
    Seq<char>,
> {
    match (loader.identity(path), loader.contents(path)) {
        (Some(Ok(id)), Some(Ok(_))) => ledger.insert(id),
        _ => ledger,
    }
}

/// Links modules: loads them through a loader, each file once, and runs the features
/// over them in the order in which `features` lists them.
pub struct Linker<L: Loader, E: Evaluator> {
    pub loader: L,
    pub evaluator: E,
    pub loaded_modules: StringHashSet,
    pub features: Vec<Feature>,
}

impl<L: Loader, E: Evaluator> Linker<L, E> {
    /// The identities of the files that were loaded.
    pub open spec fn loaded(&self) -> Set<Seq<char>> {
        self.loaded_modules@
    }

    /// Whether the ledger is in order: it holds finitely many identities.
    pub open spec fn wf(&self) -> bool {
        self.loaded().finite()
    }

    /// What `load_module` gives for the path, where the loader and the ledger decide it.
    pub open spec fn module_at(&self, path: Seq<char>) -> Option<Result<NodeView, ErrorView>> {
        found_at(&self.loader, self.loaded(), path)
    }

    /// The ledger after `load_module` for the path, where the loader and the ledger
    /// decide it.
    pub open spec fn ledger_after(&self, path: Seq<char>) -> Set<Seq<char>> {
        ledger_behind(&self.loader, self.loaded(), path)
    }

    /// What `link_module` makes of a module and of the ledger, where the loader and the
    /// engine decide what the features ask of them.
    pub open spec fn linked(&self, module: NodeView) -> Option<Result<(NodeView, Set<Seq<char>>), ErrorView>> {
        pipeline(self.features@, &self.loader, &self.evaluator, self.loaded(), module)
    }

    /// What `link_file` makes of the file at the path and of the ledger, where the loader
    /// and the engine decide what they are asked.
    pub open spec fn linked_at(&self, path: Seq<char>) -> Option<Result<(NodeView, Set<Seq<char>>), ErrorView>> {
        match self.module_at(path) {
            None => None,
            Some(Err(e)) => Some(Err(e)),
            Some(Ok(module)) => pipeline(
                self.features@,
                &self.loader,
                &self.evaluator,
                self.ledger_after(path),
                module,
            ),
        }
    }

    /// Whether the linker gave what `outcome` names: the module with that ledger, or the
    /// failure.
    pub open spec fn gave(&self, r: Result<Node, SWLError>, outcome: Result<(NodeView, Set<Seq<char>>), ErrorView>) -> bool {
        match outcome {
            Ok(linked) => r matches Ok(node) && node@ == linked.0 && self.loaded() == linked.1,
            Err(e) => fails_with(r, e),
        }
    }

    /// A linker that has loaded nothing and runs no feature.
    pub fn new(loader: L, evaluator: E) -> (linker: Self)
        ensures
            linker.wf(),
            linker.loader == loader,
            linker.evaluator == evaluator,
            linker.loaded() == Set::<Seq<char>>::empty(),
            linker.features@ == Seq::<Feature>::empty(),
    {
        Linker { loader, evaluator, loaded_modules: StringHashSet::new(), features: Vec::new() }
    }

    /// Parses `content` as a module and runs the features over it.
    pub fn link_raw(&mut self, content: &str) -> (r: Result<Node, SWLError>)
        requires
            old(self).wf(),
        ensures
            final(self).wf(),
            final(self).features == old(self).features,
            old(self).loaded().subset_of(final(self).loaded()),
            match parse_text(content@) {
                Err(e) => fails_with(r, ErrorView::Parser(e)) && final(self).loaded() == old(self).loaded(),
                Ok(n) => old(self).linked(n) matches Some(outcome) ==> final(self).gave(r, outcome),
            },
            lasting(&old(self).loader, &final(self).loader),
            persisting(&old(self).evaluator, &final(self).evaluator),
            r matches Ok(linked) ==> nested_at(linked@, 0),
    {
        proof {
            crate::parser::lemma_parse_nested(content@);
        }
        let mut parser = Parser::new(content);
        let module = parser.parse()?;
        self.link_module(module)
    }

    /// Loads the module at `path` and runs the features over it.
    ///
    /// The file enters the ledger, so that an import of it from elsewhere adds nothing.
    ///
    /// Where the loader and the engine decide what they are asked, the outcome is what
    /// [`Linker::linked_at`] says.
    pub fn link_file(&mut self, path: &str) -> (r: Result<Node, SWLError>)
        requires
            old(self).wf(),
        ensures
            final(self).wf(),
            final(self).features == old(self).features,
            old(self).loaded().subset_of(final(self).loaded()),
            old(self).linked_at(path@) matches Some(outcome) ==> final(self).gave(r, outcome),
            old(self).module_at(path@) is Some ==> old(self).ledger_after(path@).subset_of(final(self).loaded()),
            lasting(&old(self).loader, &final(self).loader),
            persisting(&old(self).evaluator, &final(self).evaluator),
            r matches Ok(linked) ==> nested_at(linked@, 0),
    {
        let module = self.load_module(path)?;
        let ghost first = self.loader;
        proof {
            if old(self).linked_at(path@) is Some {
                lemma_pipeline_lasts(
                    self.features@,
                    &old(self).loader,
                    &old(self).evaluator,
                    &self.loader,
                    &self.evaluator,
                    self.loaded(),
                    module@,
                );
            }
        }
        let r = self.link_module(module);
        proof {
            lemma_lasting_on(&old(self).loader, &first, &self.loader);
        }
        r
    }

    /// Runs the features over a module, in their order. The first failure ends the run
    /// and is the outcome.
    ///
    /// Where the loader and the engine decide what the features ask of them, the outcome
    /// is what [`Linker::linked`] says.
    pub fn link_module(&mut self, module: Node) -> (r: Result<Node, SWLError>)
        requires
            old(self).wf(),
        ensures
            final(self).wf(),
            final(self).features == old(self).features,
            old(self).loaded().subset_of(final(self).loaded()),
            old(self).linked(module@) matches Some(outcome) ==> final(self).gave(r, outcome),
            lasting(&old(self).loader, &final(self).loader),
            persisting(&old(self).evaluator, &final(self).evaluator),
            r matches Ok(linked) ==> (nested_at(module@, 0) ==> nested_at(linked@, 0)),
    {
        let ghost start = module@;
        let ghost goal = self.linked(module@);
        let mut current = module;
        let mut features: Vec<Feature> = Vec::new();
        let mut k: usize = 0;
        while k < self.features.len()
            invariant
                k <= self.features.len(),
                *self == *old(self),
                features@ == self.features@.take(k as int),
            decreases self.features.len() - k,
        {
            features.push(self.features[k]);
            k += 1;
        }
        assert(features@ == self.features@) by {
            assert(self.features@.take(self.features@.len() as int) == self.features@);
        }
        let mut i: usize = 0;
        while i < features.len()
            invariant
                i <= features.len(),
                self.wf(),
                self.features == old(self).features,
                old(self).loaded().subset_of(self.loaded()),
                features@ == old(self).features@,
                start == module@,
                nested_at(start, 0) ==> nested_at(current@, 0),
                lasting(&old(self).loader, &self.loader),
                persisting(&old(self).evaluator, &self.evaluator),
                goal == pipeline(features@, &old(self).loader, &old(self).evaluator, old(self).loaded(), start),
                goal is Some ==> pipeline(
                    features@.skip(i as int),
                    &old(self).loader,
                    &old(self).evaluator,
                    self.loaded(),
                    current@,
                ) == goal,
            decreases features.len() - i,
        {
            let ghost before = current@;
            let ghost loader = self.loader;
            let ghost evaluator = self.evaluator;
            proof {
                assert(features@.skip(i as int).drop_first() == features@.skip(i + 1));
                assert(features@.skip(i as int)[0] == features@[i as int]);
                if goal is Some {
                    lemma_determined_lasts(
                        features@[i as int],
                        &old(self).loader,
                        &old(self).evaluator,
                        &loader,
                        &evaluator,
                        self.loaded(),
                        before,
                    );
                }
            }
            let applied = apply(features[i], &mut current, self);
            proof {
                lemma_lasting_on(&old(self).loader, &loader, &self.loader);
                lemma_persisting_on(&old(self).evaluator, &evaluator, &self.evaluator);
            }
            match applied {
                Ok(()) => {},
                Err(e) => {
                    return Err(e);
                },
            }
            i += 1;
        }
        proof {
            assert(features@.skip(features@.len() as int).len() == 0);
        }
        Ok(current)
    }

    /// Whether the file with the identity `id` was loaded.
    pub fn is_loaded(&self, id: &str) -> (r: bool)
        ensures
            r == self.loaded().contains(id@),
    {
        self.loaded_modules.contains(id)
    }

    /// Writes the identity `id` into the ledger.
    pub fn record(&mut self, id: String)
        ensures
            final(self).loaded() == old(self).loaded().insert(id@),
            old(self).wf() ==> final(self).wf(),
            final(self).features == old(self).features,
            final(self).loader == old(self).loader,
            final(self).evaluator == old(self).evaluator,
    {
        self.loaded_modules.insert(id);
    }

    /// The module without items that stands for a file that was loaded before.
    pub fn placeholder() -> (module: Node)
        ensures
            module@ == empty_module(),
    {
        let mut name = String::new();
        push_text(&mut name, "module");
        let module = Node { name, depth: 0, items: Vec::new() };
        assert(module@.items =~= Seq::<crate::ast::ItemView>::empty());
        module
    }

    /// How many files were loaded.
    pub fn loaded_count(&self) -> (n: usize)
        ensures
            n == self.loaded().len(),
    {
        self.loaded_modules.len()
    }

}

impl<L: Loader, E: Evaluator> Loader for Linker<L, E> {
    /// The identity that the linker's loader gives the path.
    open spec fn identity(&self, path: Seq<char>) -> Option<Result<Seq<char>, ErrorView>> {
        self.loader.identity(path)
    }

    /// The bytes that the linker's loader finds at the path.
    open spec fn contents(&self, path: Seq<char>) -> Option<Result<Seq<u8>, ErrorView>> {
        self.loader.contents(path)
    }

    /// A linker does more than load and parse: it asks its ledger first.
    open spec fn plain(&self) -> bool {
        false
    }

    /// The identity that the loader gives the path: where the loader decides it, that
    /// identity or that failure. The ledger takes no note of it.
    fn canonicalize(&mut self, path: &str) -> (r: Result<String, SWLError>)
        ensures
            old(self).loader.identity(path@) matches Some(known) ==> gives_text(r, known),
            lasting(&old(self).loader, &final(self).loader),
            final(self).evaluator == old(self).evaluator,
            final(self).loaded() == old(self).loaded(),
            final(self).features == old(self).features,
    {
        self.loader.canonicalize(path)
    }

    /// The bytes that the loader finds at the path: where the loader decides it, those
    /// bytes or that failure. The ledger takes no note of them.
    fn load_raw(&mut self, path: &str) -> (r: Result<Vec<u8>, SWLError>)
        ensures
            old(self).loader.contents(path@) matches Some(known) ==> gives_bytes(r, known),
            lasting(&old(self).loader, &final(self).loader),
            final(self).evaluator == old(self).evaluator,
            final(self).loaded() == old(self).loaded(),
            final(self).features == old(self).features,
    {
        self.loader.load_raw(path)
    }

    /// The module at the path, or the module without items where the file that the path
    /// names was loaded before.
    ///
    /// A file enters the ledger when its bytes have been read, whether or not they parse.
    /// Where the loader decides what it gives for the path, the outcome is what
    /// [`Linker::module_at`] and [`Linker::ledger_after`] say.
    fn load_module(&mut self, path: &str) -> (r: Result<Node, SWLError>)
        ensures
            final(self).features == old(self).features,
            final(self).evaluator == old(self).evaluator,
            lasting(&old(self).loader, &final(self).loader),
            old(self).wf() ==> final(self).wf(),
            old(self).loaded().subset_of(final(self).loaded()),
            old(self).module_at(path@) matches Some(known) ==> agrees(r, known) && final(self).loaded() == old(
                self,
            ).ledger_after(path@),
            final(self).loaded() == old(self).loaded() || exists|id: Seq<char>|
                !old(self).loaded().contains(id) && #[trigger] old(self).loaded().insert(id) == final(self).loaded(),
            r matches Ok(node) ==> {
                &&& final(self).loaded() == old(self).loaded() ==> node@ == empty_module()
                &&& final(self).loaded() != old(self).loaded() ==> exists|bytes: Seq<u8>| #[trigger]
                    module_of_bytes(bytes) == Ok::<NodeView, ErrorView>(node@)
            },
    {
        let canonical_path = self.loader.canonicalize(path)?;
        if self.is_loaded(canonical_path.as_str()) {
            return Ok(Self::placeholder());
        }
        let contents = self.loader.load_raw(path)?;
        let ghost id = canonical_path@;
        let ghost bytes = contents@;
        self.record(canonical_path);
        assert(old(self).loaded().insert(id) == self.loaded());
        assert(self.loaded() != old(self).loaded()) by {
            assert(self.loaded().contains(id));
        }
        let r = module_from_bytes(contents);
        assert(r matches Ok(node) ==> module_of_bytes(bytes) == Ok::<NodeView, ErrorView>(node@));
        r
    }
}

} // verus!
