//! The search for updates over a tag source.
use vstd::prelude::*;

use crate::extractor::{extract, VersionExtractor};
use crate::image::Image;
use crate::pattern::{breaking_degree_of, PatternError};
use crate::tag_fetcher::{yields, TagSource};
use crate::version::{compare, update_type_of, UpdateType, Version};

verus! {

/// The most recent compatible and breaking updates found, where there are.
#[derive(Debug, Clone, PartialEq, Eq)]
pub struct Update {
    pub compatible: Option<String>,
    pub breaking: Option<String>,
}

/// Why a search found no answer.
#[derive(Debug, Clone, PartialEq, Eq)]
pub enum FindUpdateError<E> {
    /// Pulling from the tag source failed.
    FetchError(E),
    /// The source ran out before the current tag showed up, and no breaking
    /// update was seen; `searched_amount` items were examined.
    CurrentTagNotEncountered { searched_amount: usize },
    /// The current tag does not follow the pattern.
    CurrentTagPatternConflict { current_tag: String, pattern: String },
}

/// Errors of processing one image: a pattern that does not compile, or a
/// failed search.
#[derive(Debug, Clone, PartialEq, Eq)]
pub enum ProcessError<E> {
    CheckError(PatternError),
    FindUpdateError(FindUpdateError<E>),
}

/// Where a search stands after an item: still going, with the breaking
/// update found so far, or done.
#[derive(Debug)]
pub enum Step<E> {
    Continue(Option<String>),
    Done(Result<Update, FindUpdateError<E>>),
}

/// The search's decision on one pulled item, given the breaking update found
/// so far, for the current tag `current` whose version is `current_v`.
pub open spec fn step_of<E>(
    x: VersionExtractor,
    current: Seq<char>,
    current_v: Seq<u64>,
    breaking: Option<String>,
    item: Result<String, E>,
) -> Step<E> {
    match item {
        Err(e) => Step::Done(Err(FindUpdateError::FetchError(e))),
        Ok(tag) => if tag@ == current {
            Step::Done(Ok(Update { compatible: None, breaking }))
        } else {
            match extract(x.segs(), tag@) {
                None => Step::Continue(breaking),
                Some(v) => if compare(v, current_v) != std::cmp::Ordering::Greater {
                    Step::Continue(breaking)
                } else if update_type_of(v, current_v, breaking_degree_of(x.segs()))
                    == UpdateType::Breaking {
                    Step::Continue(
                        if breaking is Some {
                            breaking
                        } else {
                            Some(tag)
                        },
                    )
                } else {
                    Step::Done(Ok(Update { compatible: Some(tag), breaking }))
                },
            }
        },
    }
}

/// The search's state after the items `items`, pulled in order.
pub open spec fn run<E>(
    x: VersionExtractor,
    current: Seq<char>,
    current_v: Seq<u64>,
    items: Seq<Result<String, E>>,
) -> Step<E>
    decreases items.len(),
{
    if items.len() == 0 {
        Step::Continue(None)
    } else {
        match run(x, current, current_v, items.drop_last()) {
            Step::Done(r) => Step::Done(r),
            Step::Continue(b) => step_of(x, current, current_v, b, items.last()),
        }
    }
}

/// The answer when the source ends after `examined` items with the search
/// still going.
pub open spec fn conclusion<E>(breaking: Option<String>, examined: nat) -> Result<
    Update,
    FindUpdateError<E>,
> {
    if breaking is Some {
        Ok(Update { compatible: None, breaking })
    } else {
        Err(FindUpdateError::CurrentTagNotEncountered { searched_amount: examined as usize })
    }
}

/// The answer of a search that pulled `items` and stopped there, either
/// because it was done or because the source ended.
pub open spec fn outcome<E>(
    x: VersionExtractor,
    current: Seq<char>,
    current_v: Seq<u64>,
    items: Seq<Result<String, E>>,
) -> Result<Update, FindUpdateError<E>> {
    match run(x, current, current_v, items) {
        Step::Done(r) => r,
        Step::Continue(b) => conclusion(b, items.len()),
    }
}

/// Whether the search would report `tag` as an update of kind `kind`: it
/// follows the pattern, with a version strictly greater than `current_v`,
/// which classifies as `kind`.
pub open spec fn qualifies(x: VersionExtractor, tag: String, current_v: Seq<u64>, kind: UpdateType) -> bool {
    match extract(x.segs(), tag@) {
        Some(v) => compare(v, current_v) == std::cmp::Ordering::Greater && update_type_of(
            v,
            current_v,
            breaking_degree_of(x.segs()),
        ) == kind,
        None => false,
    }
}

/// Whether every tag in `u` is reported under its own kind.
pub open spec fn well_reported(x: VersionExtractor, u: Update, current_v: Seq<u64>) -> bool {
    &&& (u.compatible matches Some(t) ==> qualifies(x, t, current_v, UpdateType::Compatible))
    &&& (u.breaking matches Some(t) ==> qualifies(x, t, current_v, UpdateType::Breaking))
}

/// Only versions strictly greater than the current one are classified, and
/// each tag the search holds or reports is one whose classification gave its
/// kind; so without a breaking marker in the pattern no breaking update is
/// ever held or reported.
pub proof fn lemma_reports_only_newer<E>(
    x: VersionExtractor,
    current: Seq<char>,
    current_v: Seq<u64>,
    items: Seq<Result<String, E>>,
)
    ensures
        run(x, current, current_v, items) matches Step::Continue(Some(t)) ==> qualifies(
            x,
            t,
            current_v,
            UpdateType::Breaking,
        ),
        run(x, current, current_v, items) matches Step::Done(Ok(u)) ==> well_reported(
            x,
            u,
            current_v,
        ),
        breaking_degree_of(x.segs()) is None ==> match run(x, current, current_v, items) {
            Step::Continue(b) => b is None,
            Step::Done(Ok(u)) => u.breaking is None,
            Step::Done(Err(_)) => true,
        },
    decreases items.len(),
{
    if items.len() > 0 {
        lemma_reports_only_newer(x, current, current_v, items.drop_last());
    }
}

/// Without a breaking marker in the pattern, the first tag other than the
/// current one that follows the pattern with a strictly greater version ends
/// the search as the compatible update, with no breaking update.
pub proof fn lemma_first_newer_is_compatible<E>(
    x: VersionExtractor,
    current: Seq<char>,
    current_v: Seq<u64>,
    items: Seq<Result<String, E>>,
)
    requires
        items.len() > 0,
        breaking_degree_of(x.segs()) is None,
        run(x, current, current_v, items.drop_last()) is Continue,
        items.last() is Ok,
        items.last()->Ok_0@ != current,
        extract(x.segs(), items.last()->Ok_0@) matches Some(v) && compare(v, current_v)
            == std::cmp::Ordering::Greater,
    ensures
        run(x, current, current_v, items) == Step::<E>::Done(
            Ok(Update { compatible: Some(items.last()->Ok_0), breaking: None }),
        ),
{
    lemma_reports_only_newer(x, current, current_v, items.drop_last());
}

/// A search is done once it has been given an item it is done on; further
/// items change nothing.
proof fn lemma_done_stays<E>(
    x: VersionExtractor,
    current: Seq<char>,
    current_v: Seq<u64>,
    p: Seq<Result<String, E>>,
    q: Seq<Result<String, E>>,
)
    requires
        p.len() <= q.len(),
        p == q.take(p.len() as int),
        run(x, current, current_v, p) is Done,
    ensures
        run(x, current, current_v, q) == run(x, current, current_v, p),
    decreases q.len(),
{
    if p.len() < q.len() {
        assert(q.drop_last().take(p.len() as int) =~= q.take(p.len() as int));
        lemma_done_stays(x, current, current_v, p, q.drop_last());
    } else {
        assert(q.take(p.len() as int) =~= q);
    }
}

/// Whether a search that pulled `p` from a source handing out `s` (and then
/// ending) stopped where it had to: on the first item it is done on, or at
/// the end of `s`.
pub open spec fn stopped_at<E>(
    x: VersionExtractor,
    current: Seq<char>,
    current_v: Seq<u64>,
    s: Seq<Result<String, E>>,
    p: Seq<Result<String, E>>,
) -> bool {
    &&& p.len() <= s.len()
    &&& p == s.take(p.len() as int)
    &&& if run(x, current, current_v, p) is Done {
        p.len() > 0 && run(x, current, current_v, p.drop_last()) is Continue
    } else {
        p.len() == s.len()
    }
}

/// Determinism: two searches over sources that hand out the same items pull
/// the same items and give the same answer.
pub proof fn lemma_search_deterministic<E>(
    x: VersionExtractor,
    current: Seq<char>,
    current_v: Seq<u64>,
    s: Seq<Result<String, E>>,
    first: Seq<Result<String, E>>,
    second: Seq<Result<String, E>>,
)
    requires
        stopped_at(x, current, current_v, s, first),
        stopped_at(x, current, current_v, s, second),
    ensures
        first == second,
        outcome(x, current, current_v, first) == outcome(x, current, current_v, second),
{
    lemma_stop_unique(x, current, current_v, s, first, second);
    lemma_stop_unique(x, current, current_v, s, second, first);
    assert(first =~= second);
}

proof fn lemma_stop_unique<E>(
    x: VersionExtractor,
    current: Seq<char>,
    current_v: Seq<u64>,
    s: Seq<Result<String, E>>,
    first: Seq<Result<String, E>>,
    second: Seq<Result<String, E>>,
)
    requires
        stopped_at(x, current, current_v, s, first),
        stopped_at(x, current, current_v, s, second),
    ensures
        first.len() <= second.len(),
{
    if first.len() > second.len() {
        if run(x, current, current_v, second) is Done {
            let q = first.drop_last();
            assert(q.take(second.len() as int) =~= second);
            lemma_done_stays(x, current, current_v, second, q);
        } else {
            assert(second.len() == s.len());
        }
    }
}

/// A search that pulled a prefix of `l` and stopped there, being done or at
/// the end of `l`, answers as a search over all of `l`.
pub proof fn lemma_outcome_of_list<E>(
    x: VersionExtractor,
    current: Seq<char>,
    current_v: Seq<u64>,
    items: Seq<Result<String, E>>,
    l: Seq<Result<String, E>>,
)
    requires
        items.len() <= l.len(),
        items == l.take(items.len() as int),
        run(x, current, current_v, items) is Done || items.len() == l.len(),
    ensures
        outcome(x, current, current_v, items) == outcome(x, current, current_v, l),
{
    if run(x, current, current_v, items) is Done {
        lemma_done_stays(x, current, current_v, items, l);
    } else {
        assert(items =~= l);
    }
}

/// Decides on one pulled item. `current` must be the version of
/// `current_tag` under the extractor's pattern.
pub fn search_step<E>(
    extractor: &VersionExtractor,
    current_tag: &String,
    current: &Version,
    breaking: Option<String>,
    item: Result<String, E>,
) -> (r: Step<E>)
    requires
        extract(extractor.segs(), current_tag@) == Some(current@),
    ensures
        r == step_of(*extractor, current_tag@, current@, breaking, item),
{
    match item {
        Err(e) => Step::Done(Err(FindUpdateError::FetchError(e))),
        Ok(tag) => {
            if tag.eq(current_tag) {
                return Step::Done(Ok(Update { compatible: None, breaking }));
            }
            match extractor.extract_from(tag.as_str()) {
                None => Step::Continue(breaking),
                Some(candidate) => {
                    if !candidate.is_newer_than(current) {
                        return Step::Continue(breaking);
                    }
                    let degree = extractor.pattern().breaking_degree();
                    match candidate.update_type(current, degree) {
                        UpdateType::Breaking => {
                            if breaking.is_some() {
                                Step::Continue(breaking)
                            } else {
                                Step::Continue(Some(tag))
                            }
                        },
                        UpdateType::Compatible => Step::Done(
                            Ok(Update { compatible: Some(tag), breaking }),
                        ),
                    }
                },
            }
        },
    }
}

/// Searches the tags of `tags` for updates of the tag `image` is pinned to,
/// pulling one item at a time and no more than it needs. The search ends when
/// it is done on an item, when the source is over, or after `usize::MAX`
/// items.
pub fn find_update<E, S: TagSource<E>>(
    tags: &mut S,
    image: &Image,
    extractor: &VersionExtractor,
) -> (r: Result<Update, FindUpdateError<E>>)
    ensures
        forall|i: nat| #[trigger] final(tags).item_at(i) == old(tags).item_at(i),
        match extract(extractor.segs(), image.tag@) {
            None => {
                &&& final(tags).pulled() == old(tags).pulled()
                &&& r matches Err(FindUpdateError::CurrentTagPatternConflict { current_tag, pattern })
                &&& current_tag@ == image.tag@
                &&& pattern@ == extractor.spec_pattern().text_view()
            },
            Some(current_v) => {
                let start = old(tags).pulled().len();
                let items = final(tags).pulled().skip(start as int);
                &&& final(tags).pulled().len() >= start
                &&& final(tags).pulled().take(start as int) == old(tags).pulled()
                &&& r == outcome(*extractor, image.tag@, current_v, items)
                &&& run(*extractor, image.tag@, current_v, items) is Done ==> (items.len() > 0
                    && run(*extractor, image.tag@, current_v, items.drop_last()) is Continue)
                &&& run(*extractor, image.tag@, current_v, items) is Continue ==> (
                final(tags).exhausted() && old(tags).item_at(start + items.len()) is None
                    || items.len() == usize::MAX)
                &&& forall|j: int|
                    0 <= j < items.len() ==> old(tags).item_at((start + j) as nat) == Some(
                        #[trigger] items[j],
                    )
                &&& forall|l: Seq<Result<String, E>>|
                    #[trigger] yields(*old(tags), start, l) && l.len() < usize::MAX ==> r
                        == outcome(*extractor, image.tag@, current_v, l)
            },
        },
{
    let current = match extractor.extract_from(image.tag.as_str()) {
        None => {
            return Err(
                FindUpdateError::CurrentTagPatternConflict {
                    current_tag: image.tag.clone(),
                    pattern: extractor.pattern().to_string(),
                },
            );
        },
        Some(v) => v,
    };
    let ghost start = tags.pulled();
    let ghost x = *extractor;
    let ghost cur = image.tag@;
    let mut breaking: Option<String> = None;
    let mut examined: usize = 0;
    let mut ended = false;
    assert(tags.pulled().skip(start.len() as int) =~= Seq::<Result<String, E>>::empty());
    assert(tags.pulled().take(start.len() as int) =~= start);
    while !ended && examined < usize::MAX
        invariant
            extract(x.segs(), cur) == Some(current@),
            x == *extractor,
            cur == image.tag@,
            start == old(tags).pulled(),
            ended ==> tags.exhausted() && old(tags).item_at((start.len() + examined) as nat) is None,
            forall|i: nat| #[trigger] tags.item_at(i) == old(tags).item_at(i),
            forall|j: int|
                0 <= j < examined ==> old(tags).item_at((start.len() + j) as nat) == Some(
                    #[trigger] tags.pulled().skip(start.len() as int)[j],
                ),
            tags.pulled().len() == start.len() + examined,
            tags.pulled().take(start.len() as int) == start,
            run(x, cur, current@, tags.pulled().skip(start.len() as int)) == Step::<E>::Continue(
                breaking,
            ),
        decreases usize::MAX - examined + if ended { 0int } else { 1int },
    {
        let ghost before = tags.pulled();
        match tags.next_tag() {
            None => {
                ended = true;
            },
            Some(item) => {
                examined = examined + 1;
                let ghost items = tags.pulled().skip(start.len() as int);
                assert(items.drop_last() =~= before.skip(start.len() as int));
                assert(items.last() == item);
                assert(old(tags).item_at(before.len()) == Some(item));
                assert forall|j: int| 0 <= j < items.len() implies old(tags).item_at(
                    (start.len() + j) as nat,
                ) == Some(#[trigger] items[j]) by {
                    if j < items.len() - 1 {
                        assert(items[j] == before.skip(start.len() as int)[j]);
                    }
                }
                assert(tags.pulled().take(start.len() as int) =~= start);
                let ghost prior = breaking;
                assert(run(x, cur, current@, items) == step_of(x, cur, current@, prior, item));
                match search_step(extractor, &image.tag, &current, breaking, item) {
                    Step::Done(result) => {
                        proof {
                            lemma_list_answer(x, cur, current@, *old(tags), start.len(), items, result);
                        }
                        return result;
                    },
                    Step::Continue(b) => {
                        breaking = b;
                    },
                }
            },
        }
    }
    let result = if breaking.is_some() {
        Ok(Update { compatible: None, breaking })
    } else {
        Err(FindUpdateError::CurrentTagNotEncountered { searched_amount: examined })
    };
    proof {
        let items = tags.pulled().skip(start.len() as int);
        lemma_list_answer(x, cur, current@, *old(tags), start.len(), items, result);
    }
    result
}

/// Where a search pulled `items` from the `start`-th pull of `source` on and
/// answered `result` as the items decide, every finite list that the source
/// hands out from there gives the same answer.
proof fn lemma_list_answer<E, S: TagSource<E>>(
    x: VersionExtractor,
    current: Seq<char>,
    current_v: Seq<u64>,
    source: S,
    start: nat,
    items: Seq<Result<String, E>>,
    result: Result<Update, FindUpdateError<E>>,
)
    requires
        result == outcome(x, current, current_v, items),
        forall|j: int|
            0 <= j < items.len() ==> source.item_at((start + j) as nat) == Some(#[trigger] items[j]),
        run(x, current, current_v, items) is Continue ==> (source.item_at(start + items.len())
            is None || items.len() == usize::MAX),
    ensures
        forall|l: Seq<Result<String, E>>|
            #[trigger] yields(source, start, l) && l.len() < usize::MAX ==> result == outcome(
                x,
                current,
                current_v,
                l,
            ),
{
    assert forall|l: Seq<Result<String, E>>|
        #[trigger] yields(source, start, l) && l.len() < usize::MAX implies result == outcome(
            x,
            current,
            current_v,
            l,
        ) by {
        if items.len() > l.len() {
            let k = l.len() as int;
            assert(source.item_at((start + k) as nat) == Some(items[k]));
        } else {
            assert forall|j: int| 0 <= j < items.len() implies items[j] == l[j] by {
                assert(source.item_at((start + j) as nat) == Some(l[j]));
            }
            assert(items =~= l.take(items.len() as int));
            if run(x, current, current_v, items) is Continue && items.len() < l.len() {
                let k = items.len() as int;
                assert(source.item_at((start + k) as nat) == Some(l[k]));
            }
            lemma_outcome_of_list(x, current, current_v, items, l);
        }
    }
}

} // verus!
