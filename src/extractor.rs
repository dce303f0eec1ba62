//! Recognising tags that follow a pattern, and reading their versions.
use vstd::prelude::*;

use crate::pattern::{chars_of, segments_view, PatternError, Segment, SegmentView, VersionPattern};
use crate::version::Version;

verus! {

pub open spec fn is_digit(c: char) -> bool {
    '0' <= c <= '9'
}

pub open spec fn digit_value(c: char) -> nat {
    (c as int - '0' as int) as nat
}

/// The number that a run of decimal digits spells.
pub open spec fn digits_value(s: Seq<char>) -> nat
    decreases s.len(),
{
    if s.len() == 0 {
        0
    } else {
        digits_value(s.drop_last()) * 10 + digit_value(s.last())
    }
}

/// End of the maximal run of digits in `s` that starts at `i`.
pub open spec fn run_end(s: Seq<char>, i: int) -> int
    decreases s.len() - i,
{
    if 0 <= i < s.len() && is_digit(s[i]) {
        run_end(s, i + 1)
    } else {
        i
    }
}

/// Matches the segments from `k` on against the tag `s` from position `pos`
/// on, in one left-to-right scan; yields the components read, or `None`.
pub open spec fn match_at(segs: Seq<SegmentView>, k: int, s: Seq<char>, pos: int) -> Option<Seq<u64>>
    decreases segs.len() - k,
{
    if pos < 0 || pos > s.len() {
        None
    } else if k < 0 || k >= segs.len() {
        if pos == s.len() {
            Some(Seq::empty())
        } else {
            None
        }
    } else {
        match segs[k] {
            SegmentView::Literal(t) => if pos + t.len() <= s.len() && s.subrange(pos, pos + t.len())
                == t {
                match_at(segs, k + 1, s, pos + t.len())
            } else {
                None
            },
            SegmentView::Placeholder(_) => {
                let e = run_end(s, pos);
                let v = digits_value(s.subrange(pos, e));
                if e == pos || v > u64::MAX {
                    None
                } else {
                    match match_at(segs, k + 1, s, e) {
                        Some(rest) => Some(seq![v as u64] + rest),
                        None => None,
                    }
                }
            },
        }
    }
}

/// The version that the pattern `segs` reads from the whole of `tag`.
pub open spec fn extract(segs: Seq<SegmentView>, tag: Seq<char>) -> Option<Seq<u64>> {
    match_at(segs, 0, tag, 0)
}

/// The tags of `tags` that `segs` matches, in their order.
pub open spec fn matching(segs: Seq<SegmentView>, tags: Seq<String>) -> Seq<String>
    decreases tags.len(),
{
    if tags.len() == 0 {
        Seq::empty()
    } else if extract(segs, tags.last()@) is Some {
        matching(segs, tags.drop_last()).push(tags.last())
    } else {
        matching(segs, tags.drop_last())
    }
}

pub open spec fn digit_char(d: nat) -> char {
    if d == 0 {
        '0'
    } else if d == 1 {
        '1'
    } else if d == 2 {
        '2'
    } else if d == 3 {
        '3'
    } else if d == 4 {
        '4'
    } else if d == 5 {
        '5'
    } else if d == 6 {
        '6'
    } else if d == 7 {
        '7'
    } else if d == 8 {
        '8'
    } else {
        '9'
    }
}

/// The decimal digits of `n`, without leading zeros.
pub open spec fn decimal(n: nat) -> Seq<char>
    decreases n,
{
    if n < 10 {
        seq![digit_char(n)]
    } else {
        decimal(n / 10).push(digit_char(n % 10))
    }
}

/// Number of placeholders among the segments from `k` on.
pub open spec fn placeholders_from(segs: Seq<SegmentView>, k: int) -> nat
    decreases segs.len() - k,
{
    if k < 0 || k >= segs.len() {
        0
    } else {
        placeholders_from(segs, k + 1) + if segs[k] is Placeholder {
            1nat
        } else {
            0nat
        }
    }
}

/// `n` zero digits.
pub open spec fn zeros(n: nat) -> Seq<char> {
    Seq::new(n, |i: int| '0')
}

/// The tag that writes `comps`, in decimal, into the placeholders of the
/// segments from `k` on, with the literals between them; the component of
/// each placeholder gets as many leading zeros as `leading` gives it.
pub open spec fn render_from(
    segs: Seq<SegmentView>,
    k: int,
    comps: Seq<u64>,
    leading: Seq<nat>,
) -> Seq<char>
    decreases segs.len() - k,
{
    if k < 0 || k >= segs.len() {
        Seq::empty()
    } else {
        match segs[k] {
            SegmentView::Literal(t) => t + render_from(segs, k + 1, comps, leading),
            SegmentView::Placeholder(_) => zeros(leading[0]) + decimal(comps[0] as nat)
                + render_from(segs, k + 1, comps.skip(1), leading.skip(1)),
        }
    }
}

/// Whether each placeholder is followed by the end of the pattern or by a
/// literal that starts with something other than a digit, so that the digit
/// groups of a tag are told apart by the literals between them.
pub open spec fn digit_groups_separated(segs: Seq<SegmentView>) -> bool {
    forall|k: int|
        0 <= k < segs.len() && (#[trigger] segs[k]) is Placeholder ==> k + 1 == segs.len() || (
        segs[k + 1] is Literal && segs[k + 1]->Literal_0.len() > 0 && !is_digit(
            segs[k + 1]->Literal_0[0],
        ))
}

proof fn lemma_decimal(n: nat)
    ensures
        decimal(n).len() > 0,
        digits_value(decimal(n)) == n,
        forall|j: int| 0 <= j < decimal(n).len() ==> is_digit(#[trigger] decimal(n)[j]),
    decreases n,
{
    assert(digit_value(digit_char(n % 10)) == n % 10 && is_digit(digit_char(n % 10)));
    if n < 10 {
        assert(seq![digit_char(n)].drop_last() =~= Seq::<char>::empty());
        assert(n % 10 == n);
        assert(digits_value(Seq::<char>::empty()) == 0);
        assert(decimal(n).last() == digit_char(n));
    } else {
        assert(n == (n / 10) * 10 + n % 10) by (nonlinear_arith);
        lemma_decimal(n / 10);
        assert(decimal(n).drop_last() =~= decimal(n / 10));
        assert(decimal(n).last() == digit_char(n % 10));
        assert(digits_value(decimal(n)) == digits_value(decimal(n / 10)) * 10 + n % 10);
        assert(forall|j: int| 0 <= j < decimal(n / 10).len() ==> decimal(n)[j] == decimal(n / 10)[j]);
    }
}

proof fn lemma_zeros_value(n: nat)
    ensures
        digits_value(zeros(n)) == 0,
    decreases n,
{
    if n > 0 {
        assert(zeros(n).drop_last() =~= zeros((n - 1) as nat));
        lemma_zeros_value((n - 1) as nat);
    }
}

proof fn lemma_leading_zeros(n: nat, d: Seq<char>)
    ensures
        digits_value(zeros(n) + d) == digits_value(d),
    decreases d.len(),
{
    if d.len() == 0 {
        assert(zeros(n) + d =~= zeros(n));
        lemma_zeros_value(n);
    } else {
        assert((zeros(n) + d).drop_last() =~= zeros(n) + d.drop_last());
        lemma_leading_zeros(n, d.drop_last());
    }
}

proof fn lemma_run_end_exact(s: Seq<char>, i: int, e: int)
    requires
        0 <= i <= e <= s.len(),
        forall|j: int| i <= j < e ==> is_digit(#[trigger] s[j]),
        e == s.len() || !is_digit(s[e]),
    ensures
        run_end(s, i) == e,
    decreases e - i,
{
    if i < e {
        lemma_run_end_exact(s, i + 1, e);
    }
}

proof fn lemma_match_render(
    segs: Seq<SegmentView>,
    k: int,
    comps: Seq<u64>,
    leading: Seq<nat>,
    p: Seq<char>,
)
    requires
        0 <= k <= segs.len(),
        digit_groups_separated(segs),
        comps.len() == placeholders_from(segs, k),
        leading.len() == comps.len(),
    ensures
        match_at(segs, k, p + render_from(segs, k, comps, leading), p.len() as int) == Some(comps),
    decreases segs.len() - k,
{
    let s = p + render_from(segs, k, comps, leading);
    if k == segs.len() {
        assert(s =~= p);
        assert(comps =~= Seq::<u64>::empty());
    } else {
        match segs[k] {
            SegmentView::Literal(t) => {
                let r = render_from(segs, k + 1, comps, leading);
                assert(s =~= (p + t) + r);
                assert(s.subrange(p.len() as int, (p.len() + t.len()) as int) =~= t);
                lemma_match_render(segs, k + 1, comps, leading, p + t);
            },
            SegmentView::Placeholder(_) => {
                let c = comps[0];
                let d = zeros(leading[0]) + decimal(c as nat);
                let rest = comps.skip(1);
                let r = render_from(segs, k + 1, rest, leading.skip(1));
                lemma_decimal(c as nat);
                lemma_leading_zeros(leading[0], decimal(c as nat));
                assert forall|j: int| 0 <= j < d.len() implies is_digit(#[trigger] d[j]) by {
                    if j >= leading[0] {
                        assert(d[j] == decimal(c as nat)[j - leading[0]]);
                    }
                }
                assert(s =~= (p + d) + r);
                let pos = p.len() as int;
                let e = pos + d.len();
                assert forall|j: int| pos <= j < e implies is_digit(#[trigger] s[j]) by {
                    assert(s[j] == d[j - pos]);
                }
                if k + 1 < segs.len() {
                    let t = segs[k + 1]->Literal_0;
                    assert(r =~= t + render_from(segs, k + 2, rest, leading.skip(1)));
                    assert(s[e] == t[0]);
                }
                lemma_run_end_exact(s, pos, e);
                assert(s.subrange(pos, e) =~= d);
                lemma_match_render(segs, k + 1, rest, leading.skip(1), p + d);
                assert(seq![c] + rest =~= comps);
            },
        }
    }
}

/// Round trip: writing numbers in decimal, each with any number of leading
/// zeros, into the placeholders of a pattern, with its literals between
/// them, gives a tag whose extracted version is those numbers again,
/// wherever the pattern keeps its digit groups apart.
pub proof fn lemma_extract_render(x: VersionExtractor, comps: Seq<u64>, leading: Seq<nat>)
    requires
        x.wf(),
        digit_groups_separated(x.segs()),
        comps.len() == placeholders_from(x.segs(), 0),
        leading.len() == comps.len(),
    ensures
        extract(x.segs(), render_from(x.segs(), 0, comps, leading)) == Some(comps),
{
    let segs = x.segs();
    lemma_match_render(segs, 0, comps, leading, Seq::empty());
    assert(Seq::<char>::empty() + render_from(segs, 0, comps, leading) =~= render_from(
        segs,
        0,
        comps,
        leading,
    ));
}

proof fn lemma_digits_prefix(x: Seq<char>, i: int)
    requires
        0 <= i <= x.len(),
    ensures
        digits_value(x.take(i)) <= digits_value(x),
    decreases x.len(),
{
    if i < x.len() {
        assert(x.drop_last().take(i) =~= x.take(i));
        lemma_digits_prefix(x.drop_last(), i);
    } else {
        assert(x.take(i) =~= x);
    }
}

/// Reads the digits `s[from..to]` as a number; `None` where it exceeds `u64`.
fn parse_digits(s: &Vec<char>, from: usize, to: usize) -> (r: Option<u64>)
    requires
        from <= to <= s@.len(),
        forall|j: int| from <= j < to ==> is_digit(#[trigger] s@[j]),
    ensures
        match r {
            Some(v) => v as nat == digits_value(s@.subrange(from as int, to as int)),
            None => digits_value(s@.subrange(from as int, to as int)) > u64::MAX,
        },
{
    let mut v: u64 = 0;
    let mut i: usize = from;
    assert(s@.subrange(from as int, from as int) =~= Seq::<char>::empty());
    while i < to
        invariant
            from <= i <= to <= s@.len(),
            forall|j: int| from <= j < to ==> is_digit(#[trigger] s@[j]),
            v as nat == digits_value(s@.subrange(from as int, i as int)),
        decreases to - i,
    {
        let ghost prev = s@.subrange(from as int, i as int);
        let ghost next = s@.subrange(from as int, i + 1);
        assert(next.drop_last() =~= prev);
        let c = s[i];
        assert(is_digit(s@[i as int]));
        let d: u64 = (c as u32 - '0' as u32) as u64;
        assert(d as nat == digit_value(c));
        if v > (u64::MAX - d) / 10 {
            assert(v * 10 + d > u64::MAX) by (nonlinear_arith)
                requires
                    v > (u64::MAX - d) / 10,
                    d <= 9,
            ;
            proof {
                let whole = s@.subrange(from as int, to as int);
                assert(whole.take(i + 1 - from) =~= next);
                lemma_digits_prefix(whole, i + 1 - from);
            }
            return None;
        }
        assert(v * 10 + d <= u64::MAX) by (nonlinear_arith)
            requires
                v <= (u64::MAX - d) / 10,
                d <= 9,
        ;
        v = v * 10 + d;
        i = i + 1;
    }
    Some(v)
}

/// Whether `t` occurs in `s` at position `pos`.
fn literal_at(s: &Vec<char>, pos: usize, t: &Vec<char>) -> (r: bool)
    requires
        pos <= s@.len(),
    ensures
        r == (pos + t@.len() <= s@.len() && s@.subrange(pos as int, pos + t@.len()) == t@),
{
    if t.len() > s.len() - pos {
        return false;
    }
    let n = s.len();
    let mut j: usize = 0;
    while j < t.len()
        invariant
            n == s@.len(),
            pos + t@.len() <= s@.len(),
            j <= t@.len(),
            forall|m: int| 0 <= m < j ==> s@[pos + m] == t@[m],
        decreases t@.len() - j,
    {
        if s[pos + j] != t[j] {
            assert(s@.subrange(pos as int, pos + t@.len())[j as int] != t@[j as int]);
            return false;
        }
        j = j + 1;
    }
    assert(s@.subrange(pos as int, pos + t@.len()) =~= t@);
    true
}

/// End of the run of digits in `s` that starts at `pos`.
fn digit_run_end(s: &Vec<char>, pos: usize) -> (e: usize)
    requires
        pos <= s@.len(),
    ensures
        pos <= e <= s@.len(),
        e == run_end(s@, pos as int),
        forall|j: int| pos <= j < e ==> is_digit(#[trigger] s@[j]),
{
    let mut e: usize = pos;
    while e < s.len() && '0' <= s[e] && s[e] <= '9'
        invariant
            pos <= e <= s@.len(),
            run_end(s@, pos as int) == run_end(s@, e as int),
            forall|j: int| pos <= j < e ==> is_digit(#[trigger] s@[j]),
        decreases s@.len() - e,
    {
        e = e + 1;
    }
    e
}

fn match_segments(segs: &Vec<Segment>, k: usize, s: &Vec<char>, pos: usize) -> (r: Option<Vec<u64>>)
    requires
        k <= segs@.len(),
        pos <= s@.len(),
    ensures
        match r {
            Some(v) => match_at(segments_view(segs@), k as int, s@, pos as int) == Some(v@),
            None => match_at(segments_view(segs@), k as int, s@, pos as int) is None,
        },
    decreases segs@.len() - k,
{
    if k >= segs.len() {
        if pos == s.len() {
            let v: Vec<u64> = Vec::new();
            return Some(v);
        }
        return None;
    }
    let ghost sv = segments_view(segs@);
    assert(sv[k as int] == segs@[k as int]@);
    match &segs[k] {
        Segment::Literal(t) => {
            let n = s.len();
            if literal_at(s, pos, t) {
                match_segments(segs, k + 1, s, pos + t.len())
            } else {
                None
            }
        },
        Segment::Placeholder { .. } => {
            let e = digit_run_end(s, pos);
            if e == pos {
                return None;
            }
            let value = parse_digits(s, pos, e)?;
            let mut rest = match_segments(segs, k + 1, s, e)?;
            let ghost tail = rest@;
            rest.insert(0, value);
            assert(rest@ =~= seq![value] + tail);
            Some(rest)
        },
    }
}

/// Recognises the tags that follow one version pattern.
#[derive(Debug, Clone)]
pub struct VersionExtractor {
    pattern: VersionPattern,
}

impl VersionExtractor {
    pub closed spec fn spec_pattern(&self) -> VersionPattern {
        self.pattern
    }

    pub open spec fn segs(&self) -> Seq<SegmentView> {
        self.spec_pattern().segs()
    }

    pub open spec fn wf(&self) -> bool {
        self.spec_pattern().wf()
    }

    /// Compiles the pattern text `input`.
    pub fn parse(input: &str) -> (r: Result<VersionExtractor, PatternError>)
        ensures
            match crate::pattern::segments_from(input@, 0) {
                None => r == Err::<VersionExtractor, PatternError>(PatternError::MalformedMarker),
                Some(segs) => if crate::pattern::has_placeholder(segs) {
                    r is Ok && r->Ok_0.wf() && r->Ok_0.segs() == segs
                        && r->Ok_0.spec_pattern().text_view() == input@
                } else {
                    r == Err::<VersionExtractor, PatternError>(PatternError::NoPlaceholder)
                },
            },
    {
        let pattern = VersionPattern::parse(input)?;
        Ok(VersionExtractor { pattern })
    }

    /// The compiled pattern.
    pub fn pattern(&self) -> (r: &VersionPattern)
        ensures
            *r == self.spec_pattern(),
    {
        &self.pattern
    }

    /// The version that the pattern reads from the whole of `tag`, or `None`
    /// where the tag does not follow it.
    pub fn extract_from(&self, tag: &str) -> (r: Option<Version>)
        ensures
            match r {
                Some(v) => extract(self.segs(), tag@) == Some(v@),
                None => extract(self.segs(), tag@) is None,
            },
    {
        let chars = chars_of(tag);
        match match_segments(self.pattern.segments(), 0, &chars, 0) {
            Some(components) => Some(Version { components }),
            None => None,
        }
    }

    /// The tags of `tags` that follow the pattern, in their order.
    pub fn filter(&self, tags: Vec<String>) -> (r: Vec<String>)
        ensures
            r@ == matching(self.segs(), tags@),
    {
        let mut out: Vec<String> = Vec::new();
        let mut i: usize = 0;
        while i < tags.len()
            invariant
                i <= tags@.len(),
                out@ == matching(self.segs(), tags@.take(i as int)),
            decreases tags@.len() - i,
        {
            let ghost next = tags@.take(i + 1);
            assert(next.drop_last() =~= tags@.take(i as int));
            if self.extract_from(tags[i].as_str()).is_some() {
                out.push(tags[i].clone());
            }
            i = i + 1;
        }
        assert(tags@.take(i as int) =~= tags@);
        out
    }
}

} // verus!
