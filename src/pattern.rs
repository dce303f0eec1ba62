//! Version patterns: literal text interleaved with numeric placeholders.
//!
//! A pattern is written with two markers: `<!>` for a placeholder whose
//! component marks a compatibility boundary, and `<>` for a plain one. Every
//! other character stands for itself; `<` and `>` may only occur in markers.
use vstd::prelude::*;

verus! {

/// One piece of a compiled pattern.
#[derive(Debug, Clone, PartialEq, Eq)]
pub enum Segment {
    /// Text that a tag must contain verbatim at this position.
    Literal(Vec<char>),
    /// A run of decimal digits that becomes one version component.
    Placeholder { breaking: bool },
}

/// The mathematical model of a [`Segment`].
pub enum SegmentView {
    Literal(Seq<char>),
    Placeholder(bool),
}

impl View for Segment {
    type V = SegmentView;

    open spec fn view(&self) -> SegmentView {
        match self {
            Segment::Literal(t) => SegmentView::Literal(t@),
            Segment::Placeholder { breaking } => SegmentView::Placeholder(*breaking),
        }
    }
}

pub open spec fn segments_view(v: Seq<Segment>) -> Seq<SegmentView> {
    v.map_values(|s: Segment| s@)
}

/// Adds one literal character in front of a segment list, joining it to a
/// leading literal where there is one.
pub open spec fn prepend_char(c: char, r: Seq<SegmentView>) -> Seq<SegmentView> {
    if r.len() > 0 && r[0] is Literal {
        seq![SegmentView::Literal(seq![c] + r[0]->Literal_0)] + r.skip(1)
    } else {
        seq![SegmentView::Literal(seq![c])] + r
    }
}

/// The segments of the pattern text `s` from position `i` on, or `None`
/// where a `<` or `>` does not belong to a marker.
pub open spec fn segments_from(s: Seq<char>, i: int) -> Option<Seq<SegmentView>>
    decreases s.len() - i,
{
    if i < 0 || i >= s.len() {
        Some(Seq::empty())
    } else if s[i] == '<' {
        if i + 1 < s.len() && s[i + 1] == '>' {
            match segments_from(s, i + 2) {
                Some(r) => Some(seq![SegmentView::Placeholder(false)] + r),
                None => None,
            }
        } else if s.len() - i > 2 && s[i + 1] == '!' && s[i + 2] == '>' {
            match segments_from(s, i + 3) {
                Some(r) => Some(seq![SegmentView::Placeholder(true)] + r),
                None => None,
            }
        } else {
            None
        }
    } else if s[i] == '>' {
        None
    } else {
        match segments_from(s, i + 1) {
            Some(r) => Some(prepend_char(s[i], r)),
            None => None,
        }
    }
}

pub open spec fn has_placeholder(segs: Seq<SegmentView>) -> bool {
    exists|k: int| 0 <= k < segs.len() && (#[trigger] segs[k]) is Placeholder
}

/// Number of placeholders among `segs`.
pub open spec fn placeholder_count(segs: Seq<SegmentView>) -> nat
    decreases segs.len(),
{
    if segs.len() == 0 {
        0
    } else {
        placeholder_count(segs.drop_last()) + if segs.last() is Placeholder {
            1nat
        } else {
            0nat
        }
    }
}

/// Position, counted among the placeholders from 0, of the last placeholder
/// flagged breaking; `None` where no placeholder is flagged.
pub open spec fn breaking_degree_of(segs: Seq<SegmentView>) -> Option<nat>
    decreases segs.len(),
{
    if segs.len() == 0 {
        None
    } else if segs.last() == SegmentView::Placeholder(true) {
        Some(placeholder_count(segs.drop_last()))
    } else {
        breaking_degree_of(segs.drop_last())
    }
}

/// Why a pattern text was refused.
#[derive(Debug, Clone, Copy, PartialEq, Eq)]
pub enum PatternError {
    /// A `<` or `>` that is not part of a `<>` or `<!>` marker.
    MalformedMarker,
    /// The pattern holds no placeholder.
    NoPlaceholder,
}

/// A compiled version pattern, together with the text it was compiled from.
#[derive(Debug, Clone)]
pub struct VersionPattern {
    text: String,
    segments: Vec<Segment>,
}

impl VersionPattern {
    pub closed spec fn text_view(&self) -> Seq<char> {
        self.text@
    }

    pub closed spec fn segs(&self) -> Seq<SegmentView> {
        segments_view(self.segments@)
    }

    /// A compiled pattern is the compilation of its text, and it holds a
    /// placeholder.
    pub open spec fn wf(&self) -> bool {
        &&& segments_from(self.text_view(), 0) == Some(self.segs())
        &&& has_placeholder(self.segs())
    }

    pub open spec fn spec_breaking_degree(&self) -> Option<nat> {
        breaking_degree_of(self.segs())
    }

    /// Compiles a pattern text.
    pub fn parse(input: &str) -> (r: Result<VersionPattern, PatternError>)
        ensures
            match segments_from(input@, 0) {
                None => r == Err::<VersionPattern, PatternError>(PatternError::MalformedMarker),
                Some(segs) => if has_placeholder(segs) {
                    r is Ok && r->Ok_0.wf() && r->Ok_0.segs() == segs
                        && r->Ok_0.text_view() == input@
                } else {
                    r == Err::<VersionPattern, PatternError>(PatternError::NoPlaceholder)
                },
            },
    {
        let chars = chars_of(input);
        match segments_at(&chars, 0) {
            None => Err(PatternError::MalformedMarker),
            Some(segments) => {
                let mut k: usize = 0;
                let mut found = false;
                while k < segments.len()
                    invariant
                        k <= segments@.len(),
                        found == exists|j: int|
                            0 <= j < k && (#[trigger] segments_view(segments@)[j]) is Placeholder,
                    decreases segments@.len() - k,
                {
                    assert(segments_view(segments@)[k as int] == segments@[k as int]@);
                    if let Segment::Placeholder { .. } = segments[k] {
                        found = true;
                    }
                    k = k + 1;
                }
                if found {
                    Ok(VersionPattern { text: input.to_string(), segments })
                } else {
                    Err(PatternError::NoPlaceholder)
                }
            },
        }
    }

    /// The compiled segments, in order.
    pub fn segments(&self) -> (r: &Vec<Segment>)
        ensures
            segments_view(r@) == self.segs(),
    {
        &self.segments
    }

    /// The text the pattern was compiled from.
    pub fn to_string(&self) -> (r: String)
        ensures
            r@ == self.text_view(),
    {
        self.text.clone()
    }

    /// Position among the placeholders of the last one flagged breaking.
    pub fn breaking_degree(&self) -> (r: Option<usize>)
        ensures
            match r {
                Some(d) => self.spec_breaking_degree() == Some(d as nat),
                None => self.spec_breaking_degree() is None,
            },
    {
        let mut k: usize = 0;
        let mut count: usize = 0;
        let mut degree: Option<usize> = None;
        while k < self.segments.len()
            invariant
                k <= self.segments@.len(),
                count == placeholder_count(segments_view(self.segments@).take(k as int)),
                count <= k,
                match degree {
                    Some(d) => breaking_degree_of(segments_view(self.segments@).take(k as int))
                        == Some(d as nat),
                    None => breaking_degree_of(segments_view(self.segments@).take(k as int)) is None,
                },
            decreases self.segments@.len() - k,
        {
            let ghost segs = segments_view(self.segments@);
            assert(segs.take(k + 1).drop_last() =~= segs.take(k as int));
            match &self.segments[k] {
                Segment::Placeholder { breaking } => {
                    if *breaking {
                        degree = Some(count);
                    }
                    count = count + 1;
                },
                Segment::Literal(_) => {},
            }
            k = k + 1;
        }
        assert(segments_view(self.segments@).take(k as int) =~= self.segs());
        degree
    }
}

/// The characters of `s`, in order.
pub fn chars_of(s: &str) -> (r: Vec<char>)
    ensures
        r@ == s@,
{
    let n = s.unicode_len();
    let mut out: Vec<char> = Vec::new();
    let mut i: usize = 0;
    while i < n
        invariant
            n == s@.len(),
            i <= n,
            out@ == s@.take(i as int),
        decreases n - i,
    {
        out.push(s.get_char(i));
        assert(out@ =~= s@.take(i + 1));
        i = i + 1;
    }
    assert(out@ =~= s@);
    out
}

fn segments_at(s: &Vec<char>, i: usize) -> (r: Option<Vec<Segment>>)
    requires
        i <= s@.len(),
    ensures
        match r {
            Some(v) => segments_from(s@, i as int) == Some(segments_view(v@)),
            None => segments_from(s@, i as int) is None,
        },
    decreases s@.len() - i,
{
    if i >= s.len() {
        let v: Vec<Segment> = Vec::new();
        assert(segments_view(v@) =~= Seq::empty());
        return Some(v);
    }
    let c = s[i];
    if c == '<' {
        if i + 1 < s.len() && s[i + 1] == '>' {
            let mut rest = segments_at(s, i + 2)?;
            let ghost before = rest@;
            rest.insert(0, Segment::Placeholder { breaking: false });
            assert(segments_view(rest@) =~= seq![SegmentView::Placeholder(false)] + segments_view(before));
            Some(rest)
        } else if s.len() - i > 2 && s[i + 1] == '!' && s[i + 2] == '>' {
            let mut rest = segments_at(s, i + 3)?;
            let ghost before = rest@;
            rest.insert(0, Segment::Placeholder { breaking: true });
            assert(segments_view(rest@) =~= seq![SegmentView::Placeholder(true)] + segments_view(before));
            Some(rest)
        } else {
            None
        }
    } else if c == '>' {
        None
    } else {
        let mut rest = segments_at(s, i + 1)?;
        let ghost before = segments_view(rest@);
        if rest.len() > 0 && matches!(rest[0], Segment::Literal(_)) {
            let first = rest.remove(0);
            assert(before[0] == first@);
            let ghost after_remove = segments_view(rest@);
            assert(after_remove =~= before.skip(1));
            match first {
                Segment::Literal(mut t) => {
                    let ghost t0 = t@;
                    t.insert(0, c);
                    assert(t@ =~= seq![c] + t0);
                    rest.insert(0, Segment::Literal(t));
                    assert(segments_view(rest@) =~= seq![SegmentView::Literal(seq![c] + t0)]
                        + after_remove);
                    assert(segments_view(rest@) =~= prepend_char(c, before));
                },
                Segment::Placeholder { .. } => {},
            }
        } else {
            let mut lit: Vec<char> = Vec::new();
            lit.push(c);
            assert(lit@ =~= seq![c]);
            rest.insert(0, Segment::Literal(lit));
            assert(before.len() > 0 ==> segments_view(rest@)[1] == before[0]);
            assert(segments_view(rest@) =~= prepend_char(c, before));
        }
        Some(rest)
    }
}

} // verus!
