//! Versions: the numeric components a pattern extracts from a tag, their
//! order, and how an update between two of them is classified.
use vstd::prelude::*;

verus! {

/// Ordered numeric components, one per placeholder of the pattern that
/// produced them.
#[derive(Debug, Clone, PartialEq, Eq)]
pub struct Version {
    pub components: Vec<u64>,
}

impl View for Version {
    type V = Seq<u64>;

    open spec fn view(&self) -> Seq<u64> {
        self.components@
    }
}

/// How a newer version relates to the current one.
#[derive(Debug, Clone, Copy, PartialEq, Eq)]
pub enum UpdateType {
    Breaking,
    Compatible,
}

/// Lexicographic comparison of `a` and `b` from index `i` on, leftmost
/// component most significant; a proper prefix is the lesser.
pub open spec fn compare_from(a: Seq<u64>, b: Seq<u64>, i: int) -> std::cmp::Ordering
    decreases a.len() - i,
{
    if i < 0 || i >= a.len() || i >= b.len() {
        if a.len() < b.len() {
            std::cmp::Ordering::Less
        } else if a.len() > b.len() {
            std::cmp::Ordering::Greater
        } else {
            std::cmp::Ordering::Equal
        }
    } else if a[i] < b[i] {
        std::cmp::Ordering::Less
    } else if a[i] > b[i] {
        std::cmp::Ordering::Greater
    } else {
        compare_from(a, b, i + 1)
    }
}

pub open spec fn compare(a: Seq<u64>, b: Seq<u64>) -> std::cmp::Ordering {
    compare_from(a, b, 0)
}

/// Index of the leftmost component, from `i` on, in which `a` and `b` differ
/// (the shorter length where one is a prefix of the other).
pub open spec fn first_difference_from(a: Seq<u64>, b: Seq<u64>, i: int) -> int
    decreases a.len() - i,
{
    if i < 0 || i >= a.len() || i >= b.len() || a[i] != b[i] {
        i
    } else {
        first_difference_from(a, b, i + 1)
    }
}

pub open spec fn first_difference(a: Seq<u64>, b: Seq<u64>) -> int {
    first_difference_from(a, b, 0)
}

/// Classification of `candidate` against `current`: breaking exactly where
/// they differ at or before the breaking degree.
pub open spec fn update_type_of(
    candidate: Seq<u64>,
    current: Seq<u64>,
    breaking_degree: Option<nat>,
) -> UpdateType {
    match breaking_degree {
        Some(d) => if first_difference(candidate, current) <= d {
            UpdateType::Breaking
        } else {
            UpdateType::Compatible
        },
        None => UpdateType::Compatible,
    }
}

proof fn lemma_compare_from_flip(a: Seq<u64>, b: Seq<u64>, i: int)
    requires
        0 <= i,
    ensures
        (compare_from(a, b, i) == std::cmp::Ordering::Less) == (compare_from(b, a, i)
            == std::cmp::Ordering::Greater),
        (compare_from(a, b, i) == std::cmp::Ordering::Equal) == (compare_from(b, a, i)
            == std::cmp::Ordering::Equal),
    decreases a.len() - i,
{
    if i < a.len() && i < b.len() && a[i] == b[i] {
        lemma_compare_from_flip(a, b, i + 1);
    }
}

proof fn lemma_compare_from_equal(a: Seq<u64>, b: Seq<u64>, i: int)
    requires
        0 <= i <= a.len(),
        a.take(i) == b.take(i),
    ensures
        (compare_from(a, b, i) == std::cmp::Ordering::Equal) == (a == b),
    decreases a.len() - i,
{
    if i < a.len() && i < b.len() {
        if a[i] == b[i] {
            assert(a.take(i + 1) =~= a.take(i).push(a[i]));
            assert(b.take(i + 1) =~= b.take(i).push(b[i]));
            lemma_compare_from_equal(a, b, i + 1);
        } else {
            assert(a != b);
        }
    } else if a.len() == b.len() {
        assert(a =~= a.take(i));
        assert(b =~= b.take(i));
    } else {
        assert(a.len() != b.len());
    }
}

proof fn lemma_compare_from_trans(a: Seq<u64>, b: Seq<u64>, c: Seq<u64>, i: int)
    requires
        0 <= i,
        compare_from(a, b, i) == std::cmp::Ordering::Less,
        compare_from(b, c, i) == std::cmp::Ordering::Less,
    ensures
        compare_from(a, c, i) == std::cmp::Ordering::Less,
    decreases a.len() - i,
{
    if i < a.len() && i < b.len() && i < c.len() && a[i] == b[i] && b[i] == c[i] {
        lemma_compare_from_trans(a, b, c, i + 1);
    }
}

proof fn lemma_compare_from_lex(a: Seq<u64>, b: Seq<u64>, i: int)
    requires
        0 <= i <= a.len(),
        a.len() == b.len(),
        a.take(i) == b.take(i),
    ensures
        (compare_from(a, b, i) == std::cmp::Ordering::Less) == (exists|j: int|
            0 <= j < a.len() && a.take(j) == b.take(j) && #[trigger] a[j] < b[j]),
    decreases a.len() - i,
{
    if i < a.len() {
        if a[i] == b[i] {
            assert(a.take(i + 1) =~= a.take(i).push(a[i]));
            assert(b.take(i + 1) =~= b.take(i).push(b[i]));
            lemma_compare_from_lex(a, b, i + 1);
            if compare_from(a, b, i + 1) != std::cmp::Ordering::Less {
                assert forall|j: int|
                    0 <= j < a.len() && a.take(j) == b.take(j) implies !(#[trigger] a[j] < b[j]) by {
                    if j < i {
                        assert(a.take(i)[j] == a[j] && b.take(i)[j] == b[j]);
                    } else if j == i {
                    }
                }
            }
        } else if a[i] < b[i] {
            assert(a.take(i) == b.take(i) && a[i] < b[i]);
        } else {
            assert forall|j: int|
                0 <= j < a.len() && a.take(j) == b.take(j) implies !(#[trigger] a[j] < b[j]) by {
                if j < i {
                    assert(a.take(i)[j] == a[j] && b.take(i)[j] == b[j]);
                } else if j > i {
                    assert(a.take(j)[i] == a[i] && b.take(j)[i] == b[i]);
                }
            }
        }
    } else {
        assert forall|j: int|
            0 <= j < a.len() && a.take(j) == b.take(j) implies !(#[trigger] a[j] < b[j]) by {
            assert(a.take(i)[j] == a[j] && b.take(i)[j] == b[j]);
        }
    }
}

/// Versions are totally ordered: for any two, exactly one is less, equal or
/// greater; swapping them reverses the answer; equality is sameness; and the
/// order is transitive.
pub proof fn lemma_compare_total_order(a: Seq<u64>, b: Seq<u64>, c: Seq<u64>)
    ensures
        (compare(a, b) == std::cmp::Ordering::Less) == (compare(b, a)
            == std::cmp::Ordering::Greater),
        (compare(a, b) == std::cmp::Ordering::Equal) == (a == b),
        compare(a, b) == std::cmp::Ordering::Less && compare(b, c) == std::cmp::Ordering::Less
            ==> compare(a, c) == std::cmp::Ordering::Less,
{
    lemma_compare_from_flip(a, b, 0);
    assert(a.take(0) =~= b.take(0));
    lemma_compare_from_equal(a, b, 0);
    if compare(a, b) == std::cmp::Ordering::Less && compare(b, c) == std::cmp::Ordering::Less {
        lemma_compare_from_trans(a, b, c, 0);
    }
}

/// For versions of one pattern (equally many components), `a` is less than
/// `b` exactly when they agree up to some component and `a`'s is the smaller
/// there.
pub proof fn lemma_compare_lexicographic(a: Seq<u64>, b: Seq<u64>)
    requires
        a.len() == b.len(),
    ensures
        (compare(a, b) == std::cmp::Ordering::Less) == (exists|j: int|
            0 <= j < a.len() && a.take(j) == b.take(j) && #[trigger] a[j] < b[j]),
{
    assert(a.take(0) =~= b.take(0));
    lemma_compare_from_lex(a, b, 0);
}

impl Version {
    /// Compares two versions lexicographically.
    pub fn compare(&self, other: &Version) -> (r: std::cmp::Ordering)
        ensures
            r == compare(self@, other@),
    {
        let mut i: usize = 0;
        while i < self.components.len() && i < other.components.len()
            invariant
                i <= self@.len(),
                i <= other@.len(),
                compare(self@, other@) == compare_from(self@, other@, i as int),
            decreases self@.len() - i,
        {
            let x = self.components[i];
            let y = other.components[i];
            if x < y {
                return std::cmp::Ordering::Less;
            } else if x > y {
                return std::cmp::Ordering::Greater;
            }
            i = i + 1;
        }
        if self.components.len() < other.components.len() {
            std::cmp::Ordering::Less
        } else if self.components.len() > other.components.len() {
            std::cmp::Ordering::Greater
        } else {
            std::cmp::Ordering::Equal
        }
    }

    /// Whether `self` is strictly newer than `other`.
    pub fn is_newer_than(&self, other: &Version) -> (r: bool)
        ensures
            r == (compare(self@, other@) == std::cmp::Ordering::Greater),
    {
        match self.compare(other) {
            std::cmp::Ordering::Greater => true,
            _ => false,
        }
    }

    /// Classifies `self` as an update of `current`, given the breaking degree
    /// of the pattern both were extracted with.
    pub fn update_type(&self, current: &Version, breaking_degree: Option<usize>) -> (r: UpdateType)
        requires
            compare(self@, current@) == std::cmp::Ordering::Greater,
        ensures
            r == update_type_of(
                self@,
                current@,
                match breaking_degree {
                    Some(d) => Some(d as nat),
                    None => None,
                },
            ),
    {
        let mut i: usize = 0;
        while i < self.components.len() && i < current.components.len()
            && self.components[i] == current.components[i]
            invariant
                i <= self@.len(),
                i <= current@.len(),
                first_difference(self@, current@) == first_difference_from(self@, current@, i as int),
            decreases self@.len() - i,
        {
            i = i + 1;
        }
        match breaking_degree {
            Some(d) => if i <= d {
                UpdateType::Breaking
            } else {
                UpdateType::Compatible
            },
            None => UpdateType::Compatible,
        }
    }
}

} // verus!
