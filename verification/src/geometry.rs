//! Geometric shapes in a 2D cartesian plane, and the containment order
//! between them.
use core::cmp::Ordering;
use vstd::prelude::*;
use vstd::std_specs::cmp::PartialEqSpecImpl;
use vstd::std_specs::cmp::PartialOrdSpecImpl;
use vstd::std_specs::ops::AddSpecImpl;
use vstd::std_specs::ops::SubSpecImpl;
pub use crate::coordinate::Coordinate;

verus! {

/// How `a` stands to `b` on one axis.
pub open spec fn axis_order(a: int, b: int) -> Ordering {
    if a < b {
        Ordering::Less
    } else if a == b {
        Ordering::Equal
    } else {
        Ordering::Greater
    }
}

/// The dominance order on the plane: `p` is below `q` when it is below on
/// both axes at once. Two points that differ in opposite directions on the
/// two axes are not related.
pub open spec fn dominance(p: (int, int), q: (int, int)) -> Option<Ordering> {
    if p == q {
        Some(Ordering::Equal)
    } else if p.0 <= q.0 && p.1 <= q.1 {
        Some(Ordering::Less)
    } else if p.0 >= q.0 && p.1 >= q.1 {
        Some(Ordering::Greater)
    } else {
        None
    }
}

/// The same relation read from the other side.
pub open spec fn reversed(o: Option<Ordering>) -> Option<Ordering> {
    match o {
        Some(Ordering::Less) => Some(Ordering::Greater),
        Some(Ordering::Greater) => Some(Ordering::Less),
        other => other,
    }
}

/// Compares two coordinates of one axis.
fn order_on_axis<C: Coordinate>(a: C, b: C) -> (r: Ordering)
    ensures
        r == axis_order(a.value(), b.value()),
{
    if a.less_than(b) {
        Ordering::Less
    } else if a.same_as(b) {
        Ordering::Equal
    } else {
        Ordering::Greater
    }
}

/// A point in the cartesian coordinate system in a 2D plane
#[derive(Debug, Copy)]
pub struct Point<C: Coordinate> {
    x: C,
    y: C,
}

impl<C: Coordinate> Clone for Point<C> {
    fn clone(&self) -> (p: Point<C>)
        ensures
            p == *self,
    {
        *self
    }
}

impl<C: Coordinate> View for Point<C> {
    type V = (int, int);

    /// The pair of integers the point stands for.
    closed spec fn view(&self) -> (int, int) {
        (self.x.value(), self.y.value())
    }
}

impl<C: Coordinate> Point<C> {
    /// Some point of this coordinate type at `(x, y)`.
    pub closed spec fn at(x: int, y: int) -> Point<C> {
        choose|p: Point<C>| p@ == (x, y)
    }

    /// Whether a point of this coordinate type can stand at `(x, y)`.
    pub open spec fn can_hold(x: int, y: int) -> bool {
        C::in_range(x) && C::in_range(y)
    }

    /// A point is one that its coordinate type can hold.
    pub proof fn lemma_view_in_range(self)
        ensures
            Self::can_hold(self@.0, self@.1),
    {
        C::lemma_value_in_range(self.x);
        C::lemma_value_in_range(self.y);
    }

    /// Points are told apart by the integers they stand for.
    pub proof fn lemma_view_injective(self, other: Point<C>)
        requires
            self@ == other@,
        ensures
            self == other,
    {
        C::lemma_value_injective(self.x, other.x);
        C::lemma_value_injective(self.y, other.y);
    }

    /// Creates a cartesian point from the two coordinates.
    pub fn new(x: C, y: C) -> (p: Point<C>)
        ensures
            p@ == (x.value(), y.value()),
    {
        Point { x: x, y: y }
    }

    /// Orders two points by their x coordinates
    pub fn vertical_cmp(self, rhs: Point<C>) -> (r: Ordering)
        ensures
            r == axis_order(self@.0, rhs@.0),
    {
        order_on_axis(self.x, rhs.x)
    }

    /// Orders two points by their y coordinates
    pub fn horizontal_cmp(self, rhs: Point<C>) -> (r: Ordering)
        ensures
            r == axis_order(self@.1, rhs@.1),
    {
        order_on_axis(self.y, rhs.y)
    }

    /// The coordinate on the horizontal axis.
    pub fn get_x(&self) -> (x: C)
        ensures
            x.value() == self@.0,
    {
        self.x
    }

    /// The coordinate on the vertical axis.
    pub fn get_y(&self) -> (y: C)
        ensures
            y.value() == self@.1,
    {
        self.y
    }
}

impl<C: Coordinate> PartialEqSpecImpl for Point<C> {
    open spec fn obeys_eq_spec() -> bool {
        true
    }

    open spec fn eq_spec(&self, rhs: &Point<C>) -> bool {
        self@ == rhs@
    }
}

impl<C: Coordinate> PartialEq for Point<C> {
    /// Compares the coordinates and returns true if the two points represent the same location in
    /// the 2D plane
    fn eq(&self, rhs: &Point<C>) -> (r: bool) {
        self.x.same_as(rhs.x) && self.y.same_as(rhs.y)
    }
}

/// Equality on points is an equivalence relation, since it is equality of
/// pairs of integers.
impl<C: Coordinate> Eq for Point<C> {
}

impl<C: Coordinate> SubSpecImpl<Point<C>> for Point<C> {
    open spec fn obeys_sub_spec() -> bool {
        true
    }

    open spec fn sub_req(self, rhs: Point<C>) -> bool {
        Point::<C>::can_hold(self@.0 - rhs@.0, self@.1 - rhs@.1)
    }

    open spec fn sub_spec(self, rhs: Point<C>) -> Point<C> {
        Point::<C>::at(self@.0 - rhs@.0, self@.1 - rhs@.1)
    }
}

impl<C: Coordinate> core::ops::Sub<Point<C>> for Point<C> {
    type Output = Point<C>;

    /// Vector subtraction. Returns the point moved back by the given vector
    fn sub(self, rhs: Point<C>) -> (r: Point<C>)
        ensures
            r@ == (self@.0 - rhs@.0, self@.1 - rhs@.1),
    {
        let r = Point { x: self.x.minus(rhs.x), y: self.y.minus(rhs.y) };
        proof {
            r.lemma_view_injective(Point::<C>::at(self@.0 - rhs@.0, self@.1 - rhs@.1));
        }
        r
    }
}

impl<C: Coordinate> AddSpecImpl<Point<C>> for Point<C> {
    open spec fn obeys_add_spec() -> bool {
        true
    }

    open spec fn add_req(self, rhs: Point<C>) -> bool {
        Point::<C>::can_hold(self@.0 + rhs@.0, self@.1 + rhs@.1)
    }

    open spec fn add_spec(self, rhs: Point<C>) -> Point<C> {
        Point::<C>::at(self@.0 + rhs@.0, self@.1 + rhs@.1)
    }
}

impl<C: Coordinate> core::ops::Add<Point<C>> for Point<C> {
    type Output = Point<C>;

    /// Vector addition. Returns the point moved by the given vector
    fn add(self, rhs: Point<C>) -> (r: Point<C>)
        ensures
            r@ == (self@.0 + rhs@.0, self@.1 + rhs@.1),
    {
        let r = Point { x: self.x.plus(rhs.x), y: self.y.plus(rhs.y) };
        proof {
            r.lemma_view_injective(Point::<C>::at(self@.0 + rhs@.0, self@.1 + rhs@.1));
        }
        r
    }
}

impl<C: Coordinate> PartialOrdSpecImpl for Point<C> {
    open spec fn obeys_partial_cmp_spec() -> bool {
        true
    }

    open spec fn partial_cmp_spec(&self, rhs: &Point<C>) -> Option<Ordering> {
        dominance(self@, rhs@)
    }
}

/// A point is equal to another if it has the same coordinates
/// A point is greater than another if neither of its coordinates is smaller
/// A point is smaller than another if neither of its coordinates is greater
/// In any other case, the order is undefined
impl<C: Coordinate> PartialOrd for Point<C> {
    fn partial_cmp(&self, rhs: &Point<C>) -> (r: Option<Ordering>) {
        if self.x.same_as(rhs.x) {
            Some(order_on_axis(self.y, rhs.y))
        } else if self.y.same_as(rhs.y) {
            Some(order_on_axis(self.x, rhs.x))
        } else {
            if self.x.less_than(rhs.x) && self.y.less_than(rhs.y) {
                Some(Ordering::Less)
            } else if rhs.x.less_than(self.x) && rhs.y.less_than(self.y) {
                Some(Ordering::Greater)
            } else {
                None
            }
        }
    }
}

/// An axis-aligned closed box of the plane, by its low and high corner.
pub struct Rect {
    pub lo: (int, int),
    pub hi: (int, int),
}

impl Rect {
    /// The box that holds `p` and nothing else.
    pub open spec fn at(p: (int, int)) -> Rect {
        Rect { lo: p, hi: p }
    }

    /// The low corner is not above the high corner on either axis.
    pub open spec fn valid(self) -> bool {
        self.lo.0 <= self.hi.0 && self.lo.1 <= self.hi.1
    }

    /// Whether `p` lies in the closed box.
    pub open spec fn contains(self, p: (int, int)) -> bool {
        self.lo.0 <= p.0 <= self.hi.0 && self.lo.1 <= p.1 <= self.hi.1
    }

    /// Whether `self` lies in `other`: its corners lie between the corners
    /// of `other`.
    pub open spec fn within(self, other: Rect) -> bool {
        other.lo.0 <= self.lo.0 && self.hi.0 <= other.hi.0 && other.lo.1 <= self.lo.1
            && self.hi.1 <= other.hi.1
    }

    /// Whether the two boxes, with their corners in order, share a point.
    pub open spec fn meets(self, other: Rect) -> bool {
        self.lo.0 <= other.hi.0 && other.lo.0 <= self.hi.0 && self.lo.1 <= other.hi.1
            && other.lo.1 <= self.hi.1
    }

    /// The smallest box that covers both.
    pub open spec fn union(self, other: Rect) -> Rect {
        Rect {
            lo: (
                if self.lo.0 <= other.lo.0 {
                    self.lo.0
                } else {
                    other.lo.0
                },
                if self.lo.1 <= other.lo.1 {
                    self.lo.1
                } else {
                    other.lo.1
                },
            ),
            hi: (
                if self.hi.0 >= other.hi.0 {
                    self.hi.0
                } else {
                    other.hi.0
                },
                if self.hi.1 >= other.hi.1 {
                    self.hi.1
                } else {
                    other.hi.1
                },
            ),
        }
    }
}

/// How a line that crosses an axis at `at` stands to the interval `span` of
/// that axis: before it when it is before both of its ends, after it when it
/// is after both, and level with it otherwise.
pub open spec fn line_order(at: int, span: (int, int)) -> Ordering {
    if at < span.0 && at < span.1 {
        Ordering::Less
    } else if at > span.0 && at > span.1 {
        Ordering::Greater
    } else {
        Ordering::Equal
    }
}

/// How the closed interval `a` stands to the closed interval `b` on one
/// axis: before it when it ends before `b` begins, after it when it begins
/// after `b` ends, and level with it otherwise. Intervals that have their
/// ends in order are level exactly when they share a value, be it one end
/// alone.
pub open spec fn span_order(a: (int, int), b: (int, int)) -> Ordering {
    if a.1 < b.0 {
        Ordering::Less
    } else if b.1 < a.0 {
        Ordering::Greater
    } else {
        Ordering::Equal
    }
}

/// A splitting line, by its axis and where it crosses the other axis.
pub enum LineView {
    /// All points with this x.
    Vertical(int),
    /// All points with this y.
    Horizontal(int),
}

impl LineView {
    /// Where the line stands to a box: before it, after it, or crossing it.
    pub open spec fn against_rect(self, r: Rect) -> Ordering {
        match self {
            LineView::Vertical(x) => line_order(x, (r.lo.0, r.hi.0)),
            LineView::Horizontal(y) => line_order(y, (r.lo.1, r.hi.1)),
        }
    }

    /// Where the line crosses its axis.
    pub open spec fn position(self) -> int {
        match self {
            LineView::Vertical(x) => x,
            LineView::Horizontal(y) => y,
        }
    }

    /// The low end of the box on the axis that the line crosses.
    pub open spec fn low_of(self, r: Rect) -> int {
        match self {
            LineView::Vertical(_) => r.lo.0,
            LineView::Horizontal(_) => r.lo.1,
        }
    }

    /// The high end of the box on the axis that the line crosses.
    pub open spec fn high_of(self, r: Rect) -> int {
        match self {
            LineView::Vertical(_) => r.hi.0,
            LineView::Horizontal(_) => r.hi.1,
        }
    }

    /// Whether the line runs through the box.
    pub open spec fn crosses(self, r: Rect) -> bool {
        self.against_rect(r) == Ordering::Equal
    }

    /// Where the line stands to a point: before it, after it, or through it.
    pub open spec fn against_point(self, p: (int, int)) -> Ordering {
        match self {
            LineView::Vertical(x) => axis_order(x, p.0),
            LineView::Horizontal(y) => axis_order(y, p.1),
        }
    }
}

/// Where a box stands to a point: `Equal` when the box is that point alone,
/// `Greater` when it holds the point, `Less` when the point is outside.
pub open spec fn rect_against_point(r: Rect, p: (int, int)) -> Ordering {
    if r.lo == r.hi && r.hi == p {
        Ordering::Equal
    } else if r.contains(p) {
        Ordering::Greater
    } else {
        Ordering::Less
    }
}

/// The nesting order of boxes: `Less` when `a` lies in `b`, `Greater` when it
/// holds `b`, and no relation when neither holds the other.
pub open spec fn rect_against_rect(a: Rect, b: Rect) -> Option<Ordering> {
    if a.lo == b.lo && a.hi == b.hi {
        Some(Ordering::Equal)
    } else if a.within(b) {
        Some(Ordering::Less)
    } else if b.within(a) {
        Some(Ordering::Greater)
    } else {
        None
    }
}

/// Where the coordinate `c` stands to the interval from `lo` to `hi`.
fn order_against_interval<C: Coordinate>(c: C, lo: C, hi: C) -> (r: Ordering)
    ensures
        r == line_order(c.value(), (lo.value(), hi.value())),
{
    let order_left = order_on_axis(c, lo);
    let order_right = order_on_axis(c, hi);
    match (order_left, order_right) {
        (Ordering::Less, Ordering::Less) => Ordering::Less,
        (Ordering::Greater, Ordering::Greater) => Ordering::Greater,
        (_, _) => Ordering::Equal,
    }
}

/// A vertical line
#[derive(Debug, Copy)]
pub struct VerticalLine<C: Coordinate> {
    x: C,
}

impl<C: Coordinate> Clone for VerticalLine<C> {
    fn clone(&self) -> (l: VerticalLine<C>)
        ensures
            l == *self,
    {
        *self
    }
}

impl<C: Coordinate> View for VerticalLine<C> {
    type V = int;

    /// The x at which the line crosses the horizontal axis.
    closed spec fn view(&self) -> int {
        self.x.value()
    }
}

impl<C: Coordinate> VerticalLine<C> {
    /// Some vertical line of this coordinate type at `x`.
    pub closed spec fn at(x: int) -> VerticalLine<C> {
        choose|l: VerticalLine<C>| l@ == x
    }

    /// Lines are told apart by where they cross the axis.
    pub proof fn lemma_view_injective(self, other: VerticalLine<C>)
        requires
            self@ == other@,
        ensures
            self == other,
    {
        C::lemma_value_injective(self.x, other.x);
    }

    /// Returns the grid line intersecting the axis at x
    pub fn new(x: C) -> (l: VerticalLine<C>)
        ensures
            l@ == x.value(),
    {
        VerticalLine { x: x }
    }

    /// Returns the vertical line passing by the given point
    pub fn at_point(p: Point<C>) -> (l: VerticalLine<C>)
        ensures
            l@ == p@.0,
    {
        VerticalLine { x: p.x }
    }
}

impl<C: Coordinate> AddSpecImpl<C> for VerticalLine<C> {
    open spec fn obeys_add_spec() -> bool {
        true
    }

    open spec fn add_req(self, rhs: C) -> bool {
        C::in_range(self@ + rhs.value())
    }

    open spec fn add_spec(self, rhs: C) -> VerticalLine<C> {
        VerticalLine::<C>::at(self@ + rhs.value())
    }
}

impl<C: Coordinate> core::ops::Add<C> for VerticalLine<C> {
    type Output = VerticalLine<C>;

    fn add(self, rhs: C) -> (l: VerticalLine<C>)
        ensures
            l@ == self@ + rhs.value(),
    {
        let l = VerticalLine { x: self.x.plus(rhs) };
        proof {
            l.lemma_view_injective(VerticalLine::<C>::at(self@ + rhs.value()));
        }
        l
    }
}

impl<C: Coordinate> SubSpecImpl<C> for VerticalLine<C> {
    open spec fn obeys_sub_spec() -> bool {
        true
    }

    open spec fn sub_req(self, rhs: C) -> bool {
        C::in_range(self@ - rhs.value())
    }

    open spec fn sub_spec(self, rhs: C) -> VerticalLine<C> {
        VerticalLine::<C>::at(self@ - rhs.value())
    }
}

impl<C: Coordinate> core::ops::Sub<C> for VerticalLine<C> {
    type Output = VerticalLine<C>;

    fn sub(self, rhs: C) -> (l: VerticalLine<C>)
        ensures
            l@ == self@ - rhs.value(),
    {
        let l = VerticalLine { x: self.x.minus(rhs) };
        proof {
            l.lemma_view_injective(VerticalLine::<C>::at(self@ - rhs.value()));
        }
        l
    }
}

impl<C: Coordinate> PartialEqSpecImpl<Tile<C>> for VerticalLine<C> {
    open spec fn obeys_eq_spec() -> bool {
        true
    }

    open spec fn eq_spec(&self, rhs: &Tile<C>) -> bool {
        LineView::Vertical(self@).against_rect(rhs@) == Ordering::Equal
    }
}

impl<C: Coordinate> PartialEq<Tile<C>> for VerticalLine<C> {
    /// Whether the line intersects the tile.
    fn eq(&self, rhs: &Tile<C>) -> (r: bool) {
        matches!(order_against_interval(self.x, rhs.bottom.x, rhs.top.x), Ordering::Equal)
    }
}

impl<C: Coordinate> PartialOrdSpecImpl<Tile<C>> for VerticalLine<C> {
    open spec fn obeys_partial_cmp_spec() -> bool {
        true
    }

    open spec fn partial_cmp_spec(&self, rhs: &Tile<C>) -> Option<Ordering> {
        Some(LineView::Vertical(self@).against_rect(rhs@))
    }
}

/// Returns `Equal` if the line intersects the tile, `Less` if the line is strictly below the
/// tile or `Greater` if the line is strictly after the tile
impl<C: Coordinate> PartialOrd<Tile<C>> for VerticalLine<C> {
    fn partial_cmp(&self, rhs: &Tile<C>) -> (r: Option<Ordering>) {
        Some(order_against_interval(self.x, rhs.bottom.x, rhs.top.x))
    }
}

impl<C: Coordinate> PartialEqSpecImpl<Point<C>> for VerticalLine<C> {
    open spec fn obeys_eq_spec() -> bool {
        true
    }

    open spec fn eq_spec(&self, rhs: &Point<C>) -> bool {
        LineView::Vertical(self@).against_point(rhs@) == Ordering::Equal
    }
}

impl<C: Coordinate> PartialEq<Point<C>> for VerticalLine<C> {
    /// Whether the point is on the line.
    fn eq(&self, rhs: &Point<C>) -> (r: bool) {
        self.x.same_as(rhs.x)
    }
}

impl<C: Coordinate> PartialOrdSpecImpl<Point<C>> for VerticalLine<C> {
    open spec fn obeys_partial_cmp_spec() -> bool {
        true
    }

    open spec fn partial_cmp_spec(&self, rhs: &Point<C>) -> Option<Ordering> {
        Some(LineView::Vertical(self@).against_point(rhs@))
    }
}

/// Returns `Equal` if the point is on the line, `Less` if the line is left of
/// the point or `Greater` if the line is right of the point
impl<C: Coordinate> PartialOrd<Point<C>> for VerticalLine<C> {
    fn partial_cmp(&self, rhs: &Point<C>) -> (r: Option<Ordering>) {
        Some(order_on_axis(self.x, rhs.x))
    }
}

/// A horizontal line
#[derive(Debug, Copy)]
pub struct HorizontalLine<C: Coordinate> {
    y: C,
}

impl<C: Coordinate> Clone for HorizontalLine<C> {
    fn clone(&self) -> (l: HorizontalLine<C>)
        ensures
            l == *self,
    {
        *self
    }
}

impl<C: Coordinate> View for HorizontalLine<C> {
    type V = int;

    /// The y at which the line crosses the vertical axis.
    closed spec fn view(&self) -> int {
        self.y.value()
    }
}

impl<C: Coordinate> HorizontalLine<C> {
    /// Some horizontal line of this coordinate type at `y`.
    pub closed spec fn at(y: int) -> HorizontalLine<C> {
        choose|l: HorizontalLine<C>| l@ == y
    }

    /// Lines are told apart by where they cross the axis.
    pub proof fn lemma_view_injective(self, other: HorizontalLine<C>)
        requires
            self@ == other@,
        ensures
            self == other,
    {
        C::lemma_value_injective(self.y, other.y);
    }

    /// Returns the grid line intersecting the axis at y
    pub fn new(y: C) -> (l: HorizontalLine<C>)
        ensures
            l@ == y.value(),
    {
        HorizontalLine { y: y }
    }

    /// Returns the horizontal line passing by the given point
    pub fn at_point(p: Point<C>) -> (l: HorizontalLine<C>)
        ensures
            l@ == p@.1,
    {
        HorizontalLine { y: p.y }
    }
}

impl<C: Coordinate> AddSpecImpl<C> for HorizontalLine<C> {
    open spec fn obeys_add_spec() -> bool {
        true
    }

    open spec fn add_req(self, rhs: C) -> bool {
        C::in_range(self@ + rhs.value())
    }

    open spec fn add_spec(self, rhs: C) -> HorizontalLine<C> {
        HorizontalLine::<C>::at(self@ + rhs.value())
    }
}

impl<C: Coordinate> core::ops::Add<C> for HorizontalLine<C> {
    type Output = HorizontalLine<C>;

    fn add(self, rhs: C) -> (l: HorizontalLine<C>)
        ensures
            l@ == self@ + rhs.value(),
    {
        let l = HorizontalLine { y: self.y.plus(rhs) };
        proof {
            l.lemma_view_injective(HorizontalLine::<C>::at(self@ + rhs.value()));
        }
        l
    }
}

impl<C: Coordinate> SubSpecImpl<C> for HorizontalLine<C> {
    open spec fn obeys_sub_spec() -> bool {
        true
    }

    open spec fn sub_req(self, rhs: C) -> bool {
        C::in_range(self@ - rhs.value())
    }

    open spec fn sub_spec(self, rhs: C) -> HorizontalLine<C> {
        HorizontalLine::<C>::at(self@ - rhs.value())
    }
}

impl<C: Coordinate> core::ops::Sub<C> for HorizontalLine<C> {
    type Output = HorizontalLine<C>;

    fn sub(self, rhs: C) -> (l: HorizontalLine<C>)
        ensures
            l@ == self@ - rhs.value(),
    {
        let l = HorizontalLine { y: self.y.minus(rhs) };
        proof {
            l.lemma_view_injective(HorizontalLine::<C>::at(self@ - rhs.value()));
        }
        l
    }
}

impl<C: Coordinate> PartialEqSpecImpl<Tile<C>> for HorizontalLine<C> {
    open spec fn obeys_eq_spec() -> bool {
        true
    }

    open spec fn eq_spec(&self, rhs: &Tile<C>) -> bool {
        LineView::Horizontal(self@).against_rect(rhs@) == Ordering::Equal
    }
}

impl<C: Coordinate> PartialEq<Tile<C>> for HorizontalLine<C> {
    /// Whether the line intersects the tile.
    fn eq(&self, rhs: &Tile<C>) -> (r: bool) {
        matches!(order_against_interval(self.y, rhs.bottom.y, rhs.top.y), Ordering::Equal)
    }
}

impl<C: Coordinate> PartialOrdSpecImpl<Tile<C>> for HorizontalLine<C> {
    open spec fn obeys_partial_cmp_spec() -> bool {
        true
    }

    open spec fn partial_cmp_spec(&self, rhs: &Tile<C>) -> Option<Ordering> {
        Some(LineView::Horizontal(self@).against_rect(rhs@))
    }
}

/// Returns `Equal` if the line intersects the tile, `Less` if the line is strictly below the
/// tile or `Greater` if the line is strictly after the tile
impl<C: Coordinate> PartialOrd<Tile<C>> for HorizontalLine<C> {
    fn partial_cmp(&self, rhs: &Tile<C>) -> (r: Option<Ordering>) {
        Some(order_against_interval(self.y, rhs.bottom.y, rhs.top.y))
    }
}

impl<C: Coordinate> PartialEqSpecImpl<Point<C>> for HorizontalLine<C> {
    open spec fn obeys_eq_spec() -> bool {
        true
    }

    open spec fn eq_spec(&self, rhs: &Point<C>) -> bool {
        LineView::Horizontal(self@).against_point(rhs@) == Ordering::Equal
    }
}

impl<C: Coordinate> PartialEq<Point<C>> for HorizontalLine<C> {
    /// Whether the point is on the line.
    fn eq(&self, rhs: &Point<C>) -> (r: bool) {
        self.y.same_as(rhs.y)
    }
}

impl<C: Coordinate> PartialOrdSpecImpl<Point<C>> for HorizontalLine<C> {
    open spec fn obeys_partial_cmp_spec() -> bool {
        true
    }

    open spec fn partial_cmp_spec(&self, rhs: &Point<C>) -> Option<Ordering> {
        Some(LineView::Horizontal(self@).against_point(rhs@))
    }
}

/// Returns `Equal` if the point is on the line, `Less` if the line is below
/// the point or `Greater` if the line is above the point
impl<C: Coordinate> PartialOrd<Point<C>> for HorizontalLine<C> {
    fn partial_cmp(&self, rhs: &Point<C>) -> (r: Option<Ordering>) {
        Some(order_on_axis(self.y, rhs.y))
    }
}

/// A splitting line of either axis.
#[derive(Debug, Copy)]
pub enum Line<C: Coordinate> {
    Vertical(VerticalLine<C>),
    Horizontal(HorizontalLine<C>),
}

impl<C: Coordinate> Clone for Line<C> {
    fn clone(&self) -> (l: Line<C>)
        ensures
            l == *self,
    {
        *self
    }
}

impl<C: Coordinate> View for Line<C> {
    type V = LineView;

    open spec fn view(&self) -> LineView {
        match self {
            Line::Vertical(l) => LineView::Vertical(l@),
            Line::Horizontal(l) => LineView::Horizontal(l@),
        }
    }
}

impl<C: Coordinate> Line<C> {
    /// Whether the line is a vertical one.
    pub fn is_vertical(&self) -> (r: bool)
        ensures
            r == (self@ is Vertical),
    {
        match self {
            Line::Vertical(_) => true,
            Line::Horizontal(_) => false,
        }
    }

    /// Whether the line is a horizontal one.
    pub fn is_horizontal(&self) -> (r: bool)
        ensures
            r == (self@ is Horizontal),
    {
        match self {
            Line::Vertical(_) => false,
            Line::Horizontal(_) => true,
        }
    }

    /// Where the line stands to the tile: `Equal` if it intersects the tile,
    /// `Less` if it is strictly before it and `Greater` if it is strictly after.
    pub fn cmp_with_tile(&self, rhs: &Tile<C>) -> (r: Option<Ordering>)
        ensures
            r == Some(self@.against_rect(rhs@)),
    {
        match self {
            Line::Vertical(l) => Some(order_against_interval(l.x, rhs.bottom.x, rhs.top.x)),
            Line::Horizontal(l) => Some(order_against_interval(l.y, rhs.bottom.y, rhs.top.y)),
        }
    }

    /// Where the line stands to the point: `Equal` if the point is on it,
    /// `Less` if the line is before the point and `Greater` if it is after.
    pub fn cmp_with_point(&self, rhs: &Point<C>) -> (r: Option<Ordering>)
        ensures
            r == Some(self@.against_point(rhs@)),
    {
        match self {
            Line::Vertical(l) => Some(order_on_axis(l.x, rhs.x)),
            Line::Horizontal(l) => Some(order_on_axis(l.y, rhs.y)),
        }
    }
}

impl<C: Coordinate> PartialEqSpecImpl<Point<C>> for Line<C> {
    open spec fn obeys_eq_spec() -> bool {
        true
    }

    open spec fn eq_spec(&self, rhs: &Point<C>) -> bool {
        self@.against_point(rhs@) == Ordering::Equal
    }
}

impl<C: Coordinate> PartialEq<Point<C>> for Line<C> {
    fn eq(&self, rhs: &Point<C>) -> (r: bool) {
        matches!(self.cmp_with_point(rhs), Some(Ordering::Equal))
    }
}

impl<C: Coordinate> PartialOrdSpecImpl<Point<C>> for Line<C> {
    open spec fn obeys_partial_cmp_spec() -> bool {
        true
    }

    open spec fn partial_cmp_spec(&self, rhs: &Point<C>) -> Option<Ordering> {
        Some(self@.against_point(rhs@))
    }
}

impl<C: Coordinate> PartialOrd<Point<C>> for Line<C> {
    fn partial_cmp(&self, rhs: &Point<C>) -> (r: Option<Ordering>) {
        self.cmp_with_point(rhs)
    }
}

impl<C: Coordinate> PartialEqSpecImpl<Tile<C>> for Line<C> {
    open spec fn obeys_eq_spec() -> bool {
        true
    }

    open spec fn eq_spec(&self, rhs: &Tile<C>) -> bool {
        self@.against_rect(rhs@) == Ordering::Equal
    }
}

impl<C: Coordinate> PartialEq<Tile<C>> for Line<C> {
    fn eq(&self, rhs: &Tile<C>) -> (r: bool) {
        matches!(self.cmp_with_tile(rhs), Some(Ordering::Equal))
    }
}

impl<C: Coordinate> PartialOrdSpecImpl<Tile<C>> for Line<C> {
    open spec fn obeys_partial_cmp_spec() -> bool {
        true
    }

    open spec fn partial_cmp_spec(&self, rhs: &Tile<C>) -> Option<Ordering> {
        Some(self@.against_rect(rhs@))
    }
}

impl<C: Coordinate> PartialOrd<Tile<C>> for Line<C> {
    fn partial_cmp(&self, rhs: &Tile<C>) -> (r: Option<Ordering>) {
        self.cmp_with_tile(rhs)
    }
}

/// A `Tile` represents a bounded rectangular area in a 2D plane.
#[derive(Debug, Copy)]
pub struct Tile<C: Coordinate> {
    bottom: Point<C>,
    top: Point<C>,
}

impl<C: Coordinate> Clone for Tile<C> {
    fn clone(&self) -> (t: Tile<C>)
        ensures
            t == *self,
    {
        *self
    }
}

impl<C: Coordinate> View for Tile<C> {
    type V = Rect;

    /// The closed box between the two corners.
    closed spec fn view(&self) -> Rect {
        Rect { lo: self.bottom@, hi: self.top@ }
    }
}

impl<C: Coordinate> Tile<C> {
    /// The bottom left corner is never above or right of the top right one.
    #[verifier::type_invariant]
    closed spec fn corners_in_order(self) -> bool {
        self@.valid()
    }

    /// Creates a new `Tile` given its bottom left corner and its top right corner.
    ///
    /// `bottom` must not be upper or right to `top`.
    pub fn new(bottom: Point<C>, top: Point<C>) -> (t: Tile<C>)
        requires
            bottom@.0 <= top@.0,
            bottom@.1 <= top@.1,
        ensures
            t@ == (Rect { lo: bottom@, hi: top@ }),
    {
        Tile { bottom: bottom, top: top }
    }

    /// Creates a new tile from a point. The tile is reduced to this point
    pub fn from_point(p: Point<C>) -> (t: Tile<C>)
        ensures
            t@ == Rect::at(p@),
    {
        Tile { top: p, bottom: p }
    }

    /// Returns the bottom left corner
    pub fn bottom_left_corner(&self) -> (p: Point<C>)
        ensures
            p@ == self@.lo,
            self@.valid(),
    {
        proof {
            use_type_invariant(self);
        }
        self.bottom
    }

    /// Returns the top right corner
    pub fn top_right_corner(&self) -> (p: Point<C>)
        ensures
            p@ == self@.hi,
            self@.valid(),
    {
        proof {
            use_type_invariant(self);
        }
        self.top
    }

    /// Orders two tiles by their `x` coordinates.
    ///
    /// Returns :
    ///  - `Equal` if the two tiles `x` intervals overlap, be it in one value alone
    ///  - `Less` if the `x` interval of the first one ends before that of the second begins
    ///  - `Greater` if it begins after that of the second ends
    pub fn vertical_cmp(self, rhs: Tile<C>) -> (r: Ordering)
        ensures
            r == span_order((self@.lo.0, self@.hi.0), (rhs@.lo.0, rhs@.hi.0)),
            r == Ordering::Equal <==> self@.lo.0 <= rhs@.hi.0 && rhs@.lo.0 <= self@.hi.0,
            r == Ordering::Less <==> self@.hi.0 < rhs@.lo.0,
            r == Ordering::Greater <==> self@.lo.0 > rhs@.hi.0,
    {
        proof {
            use_type_invariant(self);
            use_type_invariant(rhs);
        }
        if self.top.x.less_than(rhs.bottom.x) {
            Ordering::Less
        } else if rhs.top.x.less_than(self.bottom.x) {
            Ordering::Greater
        } else {
            Ordering::Equal
        }
    }

    /// Orders two tiles by their `y` coordinates.
    ///
    /// Returns :
    ///  - `Equal` if the two tiles `y` intervals overlap, be it in one value alone
    ///  - `Less` if the `y` interval of the first one ends before that of the second begins
    ///  - `Greater` if it begins after that of the second ends
    pub fn horizontal_cmp(self, rhs: Tile<C>) -> (r: Ordering)
        ensures
            r == span_order((self@.lo.1, self@.hi.1), (rhs@.lo.1, rhs@.hi.1)),
            r == Ordering::Equal <==> self@.lo.1 <= rhs@.hi.1 && rhs@.lo.1 <= self@.hi.1,
            r == Ordering::Less <==> self@.hi.1 < rhs@.lo.1,
            r == Ordering::Greater <==> self@.lo.1 > rhs@.hi.1,
    {
        proof {
            use_type_invariant(self);
            use_type_invariant(rhs);
        }
        if self.top.y.less_than(rhs.bottom.y) {
            Ordering::Less
        } else if rhs.top.y.less_than(self.bottom.y) {
            Ordering::Greater
        } else {
            Ordering::Equal
        }
    }

    /// Returns the smallest tile including both tiles
    pub fn union(self, rhs: Tile<C>) -> (t: Tile<C>)
        ensures
            t@ == self@.union(rhs@),
    {
        proof {
            use_type_invariant(self);
            use_type_invariant(rhs);
        }
        Tile {
            top: Point {
                x: later(self.top.x, rhs.top.x),
                y: later(self.top.y, rhs.top.y),
            },
            bottom: Point {
                x: earlier(self.bottom.x, rhs.bottom.x),
                y: earlier(self.bottom.y, rhs.bottom.y),
            },
        }
    }
}

/// The one of two coordinates that comes first on the axis.
fn earlier<C: Coordinate>(a: C, b: C) -> (r: C)
    ensures
        r.value() == if a.value() <= b.value() {
            a.value()
        } else {
            b.value()
        },
{
    if b.less_than(a) {
        b
    } else {
        a
    }
}

/// The one of two coordinates that comes last on the axis.
fn later<C: Coordinate>(a: C, b: C) -> (r: C)
    ensures
        r.value() == if a.value() >= b.value() {
            a.value()
        } else {
            b.value()
        },
{
    if a.less_than(b) {
        b
    } else {
        a
    }
}

/// The smallest box that covers the first `n` boxes of `rects`, if `n` is
/// not zero.
pub open spec fn bounding_rect(rects: Seq<Rect>, n: nat) -> Option<Rect>
    decreases n,
{
    if n == 0 || n > rects.len() {
        None
    } else {
        match bounding_rect(rects, (n - 1) as nat) {
            None => Some(rects[n - 1]),
            Some(acc) => Some(acc.union(rects[n - 1])),
        }
    }
}

/// The boxes that a sequence of tiles stands for.
pub open spec fn rects_of<C: Coordinate>(tiles: Seq<Tile<C>>) -> Seq<Rect> {
    Seq::new(tiles.len(), |i: int| tiles[i]@)
}

/// Returns the smallest tile containing all the given tiles.
pub fn bounding_tile<C: Coordinate>(tiles: &Vec<Tile<C>>) -> (r: Option<Tile<C>>)
    ensures
        (match r {
            Some(t) => Some(t@),
            None => None,
        }) == bounding_rect(rects_of(tiles@), tiles@.len()),
{
    let mut acc: Option<Tile<C>> = None;
    let mut i: usize = 0;
    while i < tiles.len()
        invariant
            i <= tiles.len(),
            (match acc {
                Some(t) => Some(t@),
                None => None,
            }) == bounding_rect(rects_of(tiles@), i as nat),
        decreases tiles.len() - i,
    {
        acc = match acc {
            Some(t) => Some(t.union(tiles[i])),
            None => Some(tiles[i]),
        };
        i += 1;
    }
    acc
}

impl<C: Coordinate> PartialEqSpecImpl<Point<C>> for Tile<C> {
    open spec fn obeys_eq_spec() -> bool {
        true
    }

    open spec fn eq_spec(&self, rhs: &Point<C>) -> bool {
        self@ == Rect::at(rhs@)
    }
}

/// A tile is equal to a point if it is reduced to this point
impl<C: Coordinate> PartialEq<Point<C>> for Tile<C> {
    fn eq(&self, rhs: &Point<C>) -> (r: bool) {
        self.top == self.bottom && self.top == *rhs
    }
}

impl<C: Coordinate> PartialEqSpecImpl<Tile<C>> for Point<C> {
    open spec fn obeys_eq_spec() -> bool {
        true
    }

    open spec fn eq_spec(&self, rhs: &Tile<C>) -> bool {
        rhs@ == Rect::at(self@)
    }
}

/// A tile is equal to a point if it is reduced to this point
impl<C: Coordinate> PartialEq<Tile<C>> for Point<C> {
    fn eq(&self, rhs: &Tile<C>) -> (r: bool) {
        rhs.top == rhs.bottom && rhs.top == *self
    }
}

impl<C: Coordinate> PartialOrdSpecImpl<Point<C>> for Tile<C> {
    open spec fn obeys_partial_cmp_spec() -> bool {
        true
    }

    open spec fn partial_cmp_spec(&self, rhs: &Point<C>) -> Option<Ordering> {
        Some(rect_against_point(self@, rhs@))
    }
}

/// Order between points and Tile.
/// A tile is greater than a point if it contains it.
/// A tile is smaller than a point if it doesn't contain it.
/// A tile is equal to a point if it's centered to this point and has a null width and height
impl<C: Coordinate> PartialOrd<Point<C>> for Tile<C> {
    fn partial_cmp(&self, rhs: &Point<C>) -> (r: Option<Ordering>) {
        if *self == *rhs {
            Some(Ordering::Equal)
        } else {
            if *rhs >= self.bottom && *rhs <= self.top {
                Some(Ordering::Greater)
            } else {
                Some(Ordering::Less)
            }
        }
    }
}

impl<C: Coordinate> PartialOrdSpecImpl<Tile<C>> for Point<C> {
    open spec fn obeys_partial_cmp_spec() -> bool {
        true
    }

    open spec fn partial_cmp_spec(&self, rhs: &Tile<C>) -> Option<Ordering> {
        reversed(Some(rect_against_point(rhs@, self@)))
    }
}

impl<C: Coordinate> PartialOrd<Tile<C>> for Point<C> {
    fn partial_cmp(&self, rhs: &Tile<C>) -> (r: Option<Ordering>) {
        match rhs.partial_cmp(self) {
            Some(Ordering::Greater) => Some(Ordering::Less),
            Some(Ordering::Less) => Some(Ordering::Greater),
            ord => ord,
        }
    }
}

impl<C: Coordinate> PartialEqSpecImpl for Tile<C> {
    open spec fn obeys_eq_spec() -> bool {
        true
    }

    open spec fn eq_spec(&self, rhs: &Tile<C>) -> bool {
        self@ == rhs@
    }
}

impl<C: Coordinate> PartialEq for Tile<C> {
    fn eq(&self, rhs: &Tile<C>) -> (r: bool) {
        self.bottom == rhs.bottom && self.top == rhs.top
    }
}

impl<C: Coordinate> PartialOrdSpecImpl for Tile<C> {
    open spec fn obeys_partial_cmp_spec() -> bool {
        true
    }

    open spec fn partial_cmp_spec(&self, rhs: &Tile<C>) -> Option<Ordering> {
        rect_against_rect(self@, rhs@)
    }
}

/// Order between tiles
/// A tile is greater than another if it contains it
/// A tile is smaller than another if it is contained by it
/// If tiles overlap without either containing the other, there is no order
impl<C: Coordinate> PartialOrd for Tile<C> {
    fn partial_cmp(&self, rhs: &Tile<C>) -> (r: Option<Ordering>) {
        if self.bottom == rhs.bottom && self.top == rhs.top {
            Some(Ordering::Equal)
        } else if self.bottom >= rhs.bottom && self.top <= rhs.top {
            Some(Ordering::Less)
        } else if self.bottom <= rhs.bottom && self.top >= rhs.top {
            Some(Ordering::Greater)
        } else {
            None
        }
    }
}

} // verus!
