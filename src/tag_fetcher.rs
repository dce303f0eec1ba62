//! Sources of tags: pull-based sequences that hand out one item at a time.
use vstd::prelude::*;

use crate::image::ImageName;

verus! {

/// A lazy, forward-only sequence of tags for one image, most recent first.
/// Each pull yields the next tag, the error that ended a page fetch, or
/// nothing once the sequence is over. Nothing follows an error.
pub trait TagSource<E> {
    /// The items handed out so far, in order.
    spec fn pulled(&self) -> Seq<Result<String, E>>;

    /// The item that the `i`-th pull, counted from the source's creation,
    /// hands out; `None` where the sequence is over by then. Fixed for the
    /// source's life, so it also describes unbounded sources.
    spec fn item_at(&self, i: nat) -> Option<Result<String, E>>;

    /// Whether the sequence has told that it is over.
    spec fn exhausted(&self) -> bool;

    /// Pulls the next item.
    fn next_tag(&mut self) -> (r: Option<Result<String, E>>)
        ensures
            forall|i: nat| #[trigger] final(self).item_at(i) == old(self).item_at(i),
            r == old(self).item_at(old(self).pulled().len()),
            match r {
                Some(item) => final(self).pulled() == old(self).pulled().push(item),
                None => final(self).pulled() == old(self).pulled() && final(self).exhausted(),
            },
            r matches Some(Err(_)) ==> forall|j: nat|
                j > old(self).pulled().len() ==> (#[trigger] old(self).item_at(j)) is None,
    ;
}

/// Whether `source` hands out exactly the items `l` from its `from`-th pull
/// on, and then ends.
pub open spec fn yields<E, S: TagSource<E>>(source: S, from: nat, l: Seq<Result<String, E>>) -> bool {
    &&& forall|j: int| 0 <= j < l.len() ==> source.item_at((from + j) as nat) == Some(#[trigger] l[j])
    &&& source.item_at(from + l.len()) is None
}

/// The error of a fetch for an image that a source does not know.
#[derive(Debug, Clone, PartialEq, Eq)]
pub struct FetchError {
    pub image: String,
}

impl FetchError {
    pub fn new(image: String) -> (r: FetchError)
        ensures
            r.image == image,
    {
        FetchError { image }
    }
}

/// A source that hands out a fixed list of items, in which an error can only
/// come last.
pub struct ArrayTags {
    items: Vec<Result<String, FetchError>>,
    next: usize,
}

impl ArrayTags {
    /// All the items of this source, handed out or not.
    pub closed spec fn all_items(&self) -> Seq<Result<String, FetchError>> {
        self.items@
    }

    /// The items that this source has not handed out yet.
    pub closed spec fn remaining(&self) -> Seq<Result<String, FetchError>> {
        self.items@.skip(self.next as int)
    }

    #[verifier::type_invariant]
    closed spec fn inv(&self) -> bool {
        &&& self.next <= self.items@.len()
        &&& forall|i: int| 0 <= i < self.items@.len() - 1 ==> (#[trigger] self.items@[i]) is Ok
    }
}

impl TagSource<FetchError> for ArrayTags {
    closed spec fn pulled(&self) -> Seq<Result<String, FetchError>> {
        self.items@.take(self.next as int)
    }

    closed spec fn item_at(&self, i: nat) -> Option<Result<String, FetchError>> {
        if i < self.items@.len() {
            Some(self.items@[i as int])
        } else {
            None
        }
    }

    closed spec fn exhausted(&self) -> bool {
        self.next >= self.items@.len()
    }

    fn next_tag(&mut self) -> (r: Option<Result<String, FetchError>>)
        ensures
            match r {
                None => old(self).remaining().len() == 0,
                Some(item) => old(self).remaining().len() > 0 && item == old(self).remaining()[0]
                    && final(self).remaining() == old(self).remaining().skip(1),
            },
    {
        proof {
            use_type_invariant(&*self);
        }
        if self.next >= self.items.len() {
            return None;
        }
        let item = match &self.items[self.next] {
            Ok(tag) => Ok(tag.clone()),
            Err(e) => Err(FetchError::new(e.image.clone())),
        };
        assert(self.items@.take(self.next + 1) =~= self.items@.take(self.next as int).push(item));
        self.next = self.next + 1;
        assert(self.remaining() =~= old(self).remaining().skip(1));
        Some(item)
    }
}

/// A registry held in memory: one image with its list of tags, or nothing.
pub struct ArrayFetcher {
    pub entry: Option<(ImageName, Vec<String>)>,
}

impl ArrayFetcher {
    /// A fetcher that knows no image.
    pub fn new() -> (r: ArrayFetcher)
        ensures
            r.entry is None,
    {
        ArrayFetcher { entry: None }
    }

    /// A fetcher that knows the tags of one image, most recent first.
    pub fn with(name: ImageName, tags: Vec<String>) -> (r: ArrayFetcher)
        ensures
            r.entry == Some((name, tags)),
    {
        ArrayFetcher { entry: Some((name, tags)) }
    }

    /// Starts a pull over the tags of `name`: its tags where this fetcher
    /// knows the image, else a single error that names it.
    pub fn fetch(&self, name: &ImageName) -> (r: ArrayTags)
        ensures
            r.pulled() == Seq::<Result<String, FetchError>>::empty(),
            r.remaining() == r.all_items(),
            yields(r, 0, r.all_items()),
            match self.entry {
                Some((n, tags)) if n.same_name(*name) => r.all_items()
                    == tags@.map_values(|t: String| Ok::<String, FetchError>(t)),
                _ => r.all_items().len() == 1 && r.all_items()[0] is Err
                    && r.all_items()[0]->Err_0.image@ == name.text(),
            },
    {
        let mut items: Vec<Result<String, FetchError>> = Vec::new();
        match &self.entry {
            Some((known, tags)) if known.same_as(name) => {
                let mut i: usize = 0;
                while i < tags.len()
                    invariant
                        i <= tags@.len(),
                        items@ == tags@.take(i as int).map_values(
                            |t: String| Ok::<String, FetchError>(t),
                        ),
                    decreases tags@.len() - i,
                {
                    items.push(Ok(tags[i].clone()));
                    i = i + 1;
                    assert(items@ =~= tags@.take(i as int).map_values(
                        |t: String| Ok::<String, FetchError>(t),
                    ));
                }
                assert(tags@.take(i as int) =~= tags@);
            },
            _ => {
                items.push(Err(FetchError::new(name.to_string())));
            },
        }
        assert(items@.take(0) =~= Seq::<Result<String, FetchError>>::empty());
        let r = ArrayTags { items, next: 0 };
        assert(r.remaining() =~= r.all_items());
        r
    }
}

} // verus!
