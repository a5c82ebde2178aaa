//! A configuration assembled from several sources in order. Reading the
//! sources and interpreting their text happen outside this crate; a `File`
//! keeps each source's path and bytes in the order they were given.
use vstd::prelude::*;

verus! {

/// One source of configuration: where it was read from, and its bytes.
#[derive(Debug, Clone)]
pub struct Source {
    pub path: String,
    pub text: Vec<u8>,
}

impl View for Source {
    type V = (Seq<char>, Seq<u8>);

    open spec fn view(&self) -> (Seq<char>, Seq<u8>) {
        (self.path@, self.text@)
    }
}

/// A configuration made of sources, earlier ones first.
#[derive(Debug, Clone)]
pub struct File {
    sources: Vec<Source>,
}

impl View for File {
    type V = Seq<(Seq<char>, Seq<u8>)>;

    closed spec fn view(&self) -> Seq<(Seq<char>, Seq<u8>)> {
        self.sources@.map_values(|s: Source| s@)
    }
}

impl File {
    /// A configuration with no sources.
    pub fn new() -> (r: File)
        ensures
            r@ == Seq::<(Seq<char>, Seq<u8>)>::empty(),
    {
        let r = File { sources: Vec::new() };
        assert(r@ =~= Seq::<(Seq<char>, Seq<u8>)>::empty());
        r
    }

    /// The configuration made of the one source `path`, whose bytes are `text`.
    pub fn at(path: &str, text: Vec<u8>) -> (r: File)
        ensures
            r@ == seq![(path@, text@)],
    {
        let mut r = File::new();
        let source = Source { path: path.to_owned(), text };
        r.sources.push(source);
        assert(r@ =~= seq![(path@, text@)]);
        r
    }

    /// Adds the sources of `other` after those of this configuration.
    pub fn append(&mut self, other: File)
        ensures
            final(self)@ == old(self)@ + other@,
    {
        let ghost given = other@;
        let mut other = other;
        self.sources.append(&mut other.sources);
        assert(self@ =~= old(self)@ + given);
    }

    /// The configuration made of the sources `paths`, each a path with its
    /// bytes, in the order given.
    pub fn from_paths(paths: Vec<(String, Vec<u8>)>) -> (r: File)
        ensures
            r@ == paths@.map_values(|p: (String, Vec<u8>)| (p.0@, p.1@)),
    {
        let mut target = File::new();
        let mut i: usize = 0;
        while i < paths.len()
            invariant
                i <= paths@.len(),
                target@ == paths@.subrange(0, i as int).map_values(|p: (String, Vec<u8>)| (p.0@, p.1@)),
            decreases paths@.len() - i,
        {
            let config = File::at(paths[i].0.as_str(), paths[i].1.clone());
            target.append(config);
            assert(paths@.subrange(0, i + 1).map_values(|p: (String, Vec<u8>)| (p.0@, p.1@)) =~= paths@.subrange(
                0,
                i as int,
            ).map_values(|p: (String, Vec<u8>)| (p.0@, p.1@)) + seq![(paths@[i as int].0@, paths@[i as int].1@)]);
            i = i + 1;
        }
        assert(paths@.subrange(0, i as int) =~= paths@);
        target
    }

    /// The number of sources.
    pub fn len(&self) -> (r: usize)
        ensures
            r == self@.len(),
    {
        self.sources.len()
    }

    /// The path and bytes of source `i`.
    pub fn source(&self, i: usize) -> (r: &Source)
        requires
            i < self@.len(),
        ensures
            r@ == self@[i as int],
    {
        &self.sources[i]
    }
}

} // verus!
