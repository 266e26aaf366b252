use vstd::prelude::*;
use vstd::std_specs::cmp::PartialOrdSpec;
use vstd::std_specs::iter::IteratorSpec;

verus! {

/// Whether a range includes its upper bound.
#[derive(Debug, Clone, Copy, PartialEq, Eq, Structural, PartialOrd, Ord, Hash)]
pub enum RangeStyle {
    Inclusive,
    Exclusive,
}

/// One class: the values from `start` up to `end`, where `style` says
/// whether `end` itself belongs to the class.
#[derive(Debug, Clone, PartialEq, Eq, PartialOrd, Ord, Hash)]
pub struct DataRange<T: PartialOrd> {
    pub start: T,
    pub end: T,
    pub style: RangeStyle,
}

/// `a <= b` under the type's partial order.
pub open spec fn spec_le<T: PartialOrd>(a: &T, b: &T) -> bool {
    a.partial_cmp_spec(b) matches Some(core::cmp::Ordering::Less | core::cmp::Ordering::Equal)
}

/// `a < b` under the type's partial order.
pub open spec fn spec_lt<T: PartialOrd>(a: &T, b: &T) -> bool {
    a.partial_cmp_spec(b) == Some(core::cmp::Ordering::Less)
}

impl<T: PartialOrd> DataRange<T> {
    /// Whether `value` lies in the range, as its style says.
    pub open spec fn spec_contains(&self, value: &T) -> bool {
        spec_le(&self.start, value) && match self.style {
            RangeStyle::Exclusive => spec_lt(value, &self.end),
            RangeStyle::Inclusive => spec_le(value, &self.end),
        }
    }

    pub fn new(start: T, end: T, style: RangeStyle) -> (r: Self)
        ensures
            r.start == start,
            r.end == end,
            r.style == style,
    {
        DataRange { start, end, style }
    }

    /// `start <= value < end` for an exclusive range, `start <= value <= end`
    /// for an inclusive one.
    pub fn contains(&self, value: T) -> (r: bool)
        ensures
            T::obeys_partial_cmp_spec() ==> r == self.spec_contains(&value),
    {
        match self.style {
            RangeStyle::Exclusive => self.start.le(&value) && value.lt(&self.end),
            RangeStyle::Inclusive => self.start.le(&value) && value.le(&self.end),
        }
    }
}


/// Class boundaries: `k + 1` values, where entries `i` and `i + 1` bound class `i`.
#[derive(Debug, Clone, PartialEq, Eq, PartialOrd, Ord, Hash)]
pub struct Breaks<T>(pub Vec<T>);

/// Classes as explicit ranges, one per class.
#[derive(Debug, PartialEq, Eq)]
pub struct Ranges<T: PartialOrd>(pub Vec<DataRange<T>>);

impl<T> View for Breaks<T> {
    type V = Seq<T>;

    open spec fn view(&self) -> Seq<T> {
        self.0@
    }
}

impl<T: PartialOrd> View for Ranges<T> {
    type V = Seq<DataRange<T>>;

    open spec fn view(&self) -> Seq<DataRange<T>> {
        self.0@
    }
}

/// The ranges between consecutive boundaries: each is exclusive of its
/// upper bound but the last, which is inclusive.
pub open spec fn ranges_of<T: PartialOrd>(b: Seq<T>) -> Seq<DataRange<T>> {
    Seq::new(
        if b.len() >= 1 { (b.len() - 1) as nat } else { 0 },
        |i: int|
            DataRange {
                start: b[i],
                end: b[i + 1],
                style: if i == b.len() - 2 { RangeStyle::Inclusive } else { RangeStyle::Exclusive },
            },
    )
}

/// The start of the first range followed by the end of every range.
pub open spec fn breaks_of<T: PartialOrd>(rs: Seq<DataRange<T>>) -> Seq<T> {
    if rs.len() == 0 {
        Seq::empty()
    } else {
        seq![rs[0].start] + Seq::new(rs.len(), |i: int| rs[i].end)
    }
}

/// At least one range; each starts where the previous one ends; the last is
/// inclusive and all others exclusive.
pub open spec fn well_formed_ranges<T: PartialOrd>(rs: Seq<DataRange<T>>) -> bool {
    &&& rs.len() >= 1
    &&& forall|i: int| 0 <= i < rs.len() - 1 ==> #[trigger] rs[i].end == rs[i + 1].start
    &&& forall|i: int|
        0 <= i < rs.len() ==> (#[trigger] rs[i].style == if i == rs.len() - 1 {
            RangeStyle::Inclusive
        } else {
            RangeStyle::Exclusive
        })
}

impl<T: PartialOrd + Copy> Breaks<T> {
    /// The boundaries of `ranges`: the start of the first range, then the end
    /// of each range in order. No ranges give no boundaries.
    pub fn from_ranges(ranges: &Ranges<T>) -> (r: Breaks<T>)
        ensures
            r@ == breaks_of(ranges@),
    {
        let rs = &ranges.0;
        let mut v: Vec<T> = Vec::new();
        if rs.len() == 0 {
            return Breaks(v);
        }
        v.push(rs[0].start);
        let mut i: usize = 0;
        while i < rs.len()
            invariant
                0 <= i <= rs@.len(),
                rs@.len() >= 1,
                v@ == seq![rs@[0].start] + Seq::new(i as nat, |j: int| rs@[j].end),
            decreases rs@.len() - i,
        {
            v.push(rs[i].end);
            i = i + 1;
            proof {
                assert(v@ =~= seq![rs@[0].start] + Seq::new(i as nat, |j: int| rs@[j].end));
            }
        }
        Breaks(v)
    }
}

impl<T: PartialOrd + Copy> Ranges<T> {
    /// One range per pair of consecutive boundaries, exclusive of its upper
    /// bound except the last, which is inclusive.
    pub fn from_breaks(breaks: &Breaks<T>) -> (r: Ranges<T>)
        ensures
            r@ == ranges_of(breaks@),
    {
        let b = &breaks.0;
        let mut v: Vec<DataRange<T>> = Vec::new();
        if b.len() < 2 {
            proof {
                assert(v@ =~= ranges_of(b@));
            }
            return Ranges(v);
        }
        let last: usize = b.len() - 2;
        let mut i: usize = 0;
        while i <= last
            invariant
                b@.len() >= 2,
                last + 2 == b.len(),
                0 <= i <= last + 1,
                v@ =~= ranges_of(b@).take(i as int),
            decreases last + 1 - i,
        {
            let style = if i == last {
                RangeStyle::Inclusive
            } else {
                RangeStyle::Exclusive
            };
            let next: usize = i + 1;
            v.push(DataRange::new(b[i], b[next], style));
            i = i + 1;
            proof {
                assert(v@ =~= ranges_of(b@).take(i as int));
            }
        }
        proof {
            assert(ranges_of(b@).take(i as int) =~= ranges_of(b@));
        }
        Ranges(v)
    }
}

impl<T: PartialOrd + Copy> vstd::std_specs::convert::FromSpecImpl<Ranges<T>> for Breaks<T> {
    open spec fn obeys_from_spec() -> bool {
        false
    }

    open spec fn from_spec(v: Ranges<T>) -> Breaks<T> {
        choose|b: Breaks<T>| b@ == breaks_of(v@)
    }
}

impl<T: PartialOrd + Copy> vstd::std_specs::convert::FromSpecImpl<Breaks<T>> for Ranges<T> {
    open spec fn obeys_from_spec() -> bool {
        false
    }

    open spec fn from_spec(v: Breaks<T>) -> Ranges<T> {
        choose|r: Ranges<T>| r@ == ranges_of(v@)
    }
}

impl<T: PartialOrd + Copy> From<Ranges<T>> for Breaks<T> {
    fn from(other: Ranges<T>) -> (r: Breaks<T>)
        ensures
            r@ == breaks_of(other@),
    {
        Breaks::from_ranges(&other)
    }
}

impl<T: PartialOrd + Copy> From<Breaks<T>> for Ranges<T> {
    fn from(other: Breaks<T>) -> (r: Ranges<T>)
        ensures
            r@ == ranges_of(other@),
    {
        Ranges::from_breaks(&other)
    }
}

/// Turning boundaries into ranges and back gives the same boundaries, for
/// any sequence of at least two boundaries.
pub proof fn lemma_breaks_round_trip<T: PartialOrd>(b: Seq<T>)
    requires
        b.len() >= 2,
    ensures
        breaks_of(ranges_of(b)) == b,
        well_formed_ranges(ranges_of(b)),
{
    assert(breaks_of(ranges_of(b)) =~= b);
}

/// Turning well-formed ranges into boundaries and back gives the same ranges.
pub proof fn lemma_ranges_round_trip<T: PartialOrd>(rs: Seq<DataRange<T>>)
    requires
        well_formed_ranges(rs),
    ensures
        ranges_of(breaks_of(rs)) == rs,
{
    let b = breaks_of(rs);
    assert forall|i: int| 0 <= i < rs.len() implies #[trigger] ranges_of(b)[i] == rs[i] by {
        if i > 0 {
            assert(rs[i - 1].end == rs[i].start);
            assert(b[i] == rs[i - 1].end);
        } else {
            assert(b[i] == rs[0].start);
        }
        assert(b[i + 1] == rs[i].end);
        assert(rs[i].style == if i == rs.len() - 1 {
            RangeStyle::Inclusive
        } else {
            RangeStyle::Exclusive
        });
    }
    assert(ranges_of(b) =~= rs);
}


impl<T> IntoIterator for Breaks<T> {
    type Item = T;

    type IntoIter = std::vec::IntoIter<T>;

    /// The boundaries, in order.
    fn into_iter(self) -> (r: std::vec::IntoIter<T>)
        ensures
            r.remaining() == self@,
    {
        self.0.into_iter()
    }
}

impl<T: PartialOrd> IntoIterator for Ranges<T> {
    type Item = DataRange<T>;

    type IntoIter = std::vec::IntoIter<DataRange<T>>;

    /// The ranges, in order.
    fn into_iter(self) -> (r: std::vec::IntoIter<DataRange<T>>)
        ensures
            r.remaining() == self@,
    {
        self.0.into_iter()
    }
}

/// Scanning down from boundary `j`, the last boundary at or below `x`
/// (among `0..=j`), given that boundary 0 is at or below `x`.
proof fn lemma_last_at_or_below(b: Seq<i64>, x: i64, j: int) -> (i: int)
    requires
        0 <= j < b.len(),
        b[0] <= x,
    ensures
        0 <= i <= j,
        b[i] <= x,
        i < j ==> x < b[i + 1],
    decreases j,
{
    if b[j] <= x || j == 0 {
        j
    } else {
        lemma_last_at_or_below(b, x, j - 1)
    }
}

/// For sorted integer boundaries, the ranges cover every value from the
/// first boundary to the last exactly once, and nothing outside them.
pub proof fn lemma_ranges_cover(b: Seq<i64>, x: i64)
    requires
        b.len() >= 2,
        forall|i: int, j: int| 0 <= i <= j < b.len() ==> b[i] <= b[j],
    ensures
        b[0] <= x <= b[b.len() - 1] ==> exists|i: int|
            0 <= i < b.len() - 1 && #[trigger] ranges_of(b)[i].spec_contains(&x),
        forall|i: int, j: int|
            0 <= i < j < b.len() - 1 && #[trigger] ranges_of(b)[i].spec_contains(&x)
                ==> !#[trigger] ranges_of(b)[j].spec_contains(&x),
        x < b[0] || x > b[b.len() - 1] ==> forall|i: int|
            0 <= i < b.len() - 1 ==> !#[trigger] ranges_of(b)[i].spec_contains(&x),
{
    let rs = ranges_of(b);
    let last = b.len() - 2;
    if b[0] <= x <= b[b.len() - 1] {
        let i = lemma_last_at_or_below(b, x, last);
        assert(rs[i].spec_contains(&x));
    }
    assert forall|i: int, j: int|
        0 <= i < j < b.len() - 1 && #[trigger] rs[i].spec_contains(&x) implies !#[trigger] rs[j].spec_contains(&x) by {
        assert(b[i + 1] <= b[j]);
    }
    assert forall|i: int| 0 <= i < b.len() - 1 && (x < b[0] || x > b[b.len() - 1]) implies !#[trigger] rs[i].spec_contains(&x) by {
        assert(b[0] <= b[i]);
        assert(b[i + 1] <= b[b.len() - 1]);
    }
}

} // verus!
