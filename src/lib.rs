use vstd::prelude::*;

pub mod cache;
pub mod codec;
mod deflate;

verus! {

/// A single textual label attached to a file.
#[derive(Debug)]
pub struct Tag(pub(crate) String);

impl View for Tag {
    type V = Seq<char>;

    open(crate) spec fn view(&self) -> Seq<char> {
        self.0@
    }
}

impl Tag {
    pub fn as_str(&self) -> (r: &str)
        ensures
            r@ == self@,
    {
        self.0.as_str()
    }
}

/// What a `TaggedFile` holds: its path and its tags, in order.
pub type EntryView = (Seq<char>, Seq<Seq<char>>);

/// A file path paired with its tags, kept in insertion order.
#[derive(Debug)]
pub struct TaggedFile {
    pub(crate) path: String,
    pub(crate) tags: Vec<Tag>,
}

impl View for TaggedFile {
    type V = EntryView;

    open(crate) spec fn view(&self) -> EntryView {
        (self.path@, self.tags@.map_values(|t: Tag| t@))
    }
}

impl TaggedFile {
    /// A file with the given path and no tags.
    pub fn new(path: &str) -> (r: TaggedFile)
        ensures
            r@ == (path@, Seq::<Seq<char>>::empty()),
    {
        let r = TaggedFile { path: path.to_owned(), tags: Vec::new() };
        assert(r@.1 =~= Seq::<Seq<char>>::empty());
        r
    }

    /// Appends a tag after the existing ones; a tag is a non-empty label.
    pub fn add_tag(&mut self, tag: &str)
        requires
            tag@.len() > 0,
        ensures
            final(self)@ == (old(self)@.0, old(self)@.1.push(tag@)),
    {
        self.tags.push(Tag(tag.to_owned()));
        assert(self@.1 =~= old(self)@.1.push(tag@));
    }

    pub fn path(&self) -> (r: &str)
        ensures
            r@ == self@.0,
    {
        self.path.as_str()
    }

    pub fn tag_count(&self) -> (r: usize)
        ensures
            r == self@.1.len(),
    {
        self.tags.len()
    }

    pub fn tag(&self, i: usize) -> (r: &str)
        requires
            i < self@.1.len(),
        ensures
            r@ == self@.1[i as int],
    {
        self.tags[i].as_str()
    }
}

} // verus!
