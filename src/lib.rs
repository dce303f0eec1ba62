//! Finds, for an image pinned to a tag, the most recent compatible and
//! breaking updates among the tags that a registry offers, guided by a
//! version pattern.
pub mod docker_compose;
pub mod extractor;
pub mod image;
pub mod pattern;
pub mod search;
pub mod tag_fetcher;
pub mod version;

use vstd::prelude::*;

pub use search::{find_update, search_step, FindUpdateError, ProcessError, Step, Update};

verus! {

/// Error messages from the outermost cause inwards, joined by `": "`.
pub open spec fn joined(messages: Seq<Seq<char>>) -> Seq<char>
    decreases messages.len(),
{
    if messages.len() == 0 {
        Seq::empty()
    } else if messages.len() == 1 {
        messages[0]
    } else {
        joined(messages.drop_last()) + seq![':', ' '] + messages.last()
    }
}

/// Renders a chain of error messages, the error first and then each of its
/// causes, as one line.
pub fn display_error(messages: &Vec<String>) -> (r: String)
    ensures
        r@ == joined(messages@.map_values(|m: String| m@)),
{
    let ghost views = messages@.map_values(|m: String| m@);
    if messages.len() == 0 {
        return String::new();
    }
    let mut output = messages[0].clone();
    let mut i: usize = 1;
    assert(views.take(1).drop_last() =~= Seq::<Seq<char>>::empty());
    while i < messages.len()
        invariant
            1 <= i <= messages@.len(),
            views == messages@.map_values(|m: String| m@),
            output@ == joined(views.take(i as int)),
        decreases messages@.len() - i,
    {
        assert(views.take(i + 1).drop_last() =~= views.take(i as int));
        proof {
            reveal_strlit(": ");
        }
        output = output.concat(": ");
        output = output.concat(messages[i].as_str());
        i = i + 1;
    }
    assert(views.take(i as int) =~= views);
    output
}

} // verus!
