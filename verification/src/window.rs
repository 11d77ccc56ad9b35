//! A borrowed, half-open view `[start, end)` over a vector.
//!
//! A window never owns or copies the elements it shows. Every operation only
//! moves the two bounds, so all windows derived from one vector alias it.
use vstd::prelude::*;

verus! {

/// The mathematical value of a window: the whole backing sequence and the
/// two bounds of the range that the window shows.
pub ghost struct WindowView<T> {
    pub items: Seq<T>,
    pub start: int,
    pub end: int,
}

impl<T> WindowView<T> {
    /// The bounds lie in order inside the backing sequence.
    pub open spec fn wf(self) -> bool {
        0 <= self.start <= self.end <= self.items.len()
    }

    /// Number of elements shown.
    pub open spec fn size(self) -> nat {
        if self.start <= self.end {
            (self.end - self.start) as nat
        } else {
            0
        }
    }

    /// The elements shown, in order.
    pub open spec fn content(self) -> Seq<T> {
        self.items.subrange(self.start, self.end)
    }

    /// The same backing sequence with other bounds.
    pub open spec fn with_bounds(self, start: int, end: int) -> Self {
        WindowView { items: self.items, start, end }
    }

    /// `self` shows a sub-range of what `outer` shows, over the same backing
    /// sequence.
    pub open spec fn within(self, outer: Self) -> bool {
        &&& self.items == outer.items
        &&& outer.start <= self.start <= self.end <= outer.end
    }

    /// The element at position `index` counted from the start of the window.
    pub open spec fn at(self, index: int) -> T
        recommends
            0 <= index < self.size(),
    {
        self.items[self.start + index]
    }

    /// The first element shown, if any.
    pub open spec fn first(self) -> Option<T> {
        if self.size() > 0 {
            Some(self.items[self.start])
        } else {
            None
        }
    }

    /// The last element shown, if any.
    pub open spec fn last(self) -> Option<T> {
        if self.size() > 0 {
            Some(self.items[self.end - 1])
        } else {
            None
        }
    }

    /// Drops the first `n` elements, or all of them if there are fewer.
    pub open spec fn skip(self, n: nat) -> Self {
        if n >= self.size() {
            self.with_bounds(self.end, self.end)
        } else {
            self.with_bounds(self.start + n, self.end)
        }
    }

    /// Keeps the first `n` elements, or all of them if there are fewer.
    pub open spec fn take(self, n: nat) -> Self {
        if n >= self.size() {
            self
        } else {
            self.with_bounds(self.start, self.start + n)
        }
    }

    /// Moves the start to `new_start` if that lies strictly inside
    /// `(start, end]`; otherwise nothing changes.
    pub open spec fn shrink_start_to(self, new_start: int) -> Self {
        if self.start < new_start <= self.end {
            self.with_bounds(new_start, self.end)
        } else {
            self
        }
    }

    /// Moves the end to `new_end` if that lies inside `[start, end)`;
    /// otherwise nothing changes.
    pub open spec fn shrink_end_to(self, new_end: int) -> Self {
        if self.start <= new_end < self.end {
            self.with_bounds(self.start, new_end)
        } else {
            self
        }
    }

    /// The window without its first element; unchanged when empty.
    pub open spec fn drop_first(self) -> Self {
        if self.size() > 0 {
            self.with_bounds(self.start + 1, self.end)
        } else {
            self
        }
    }

    /// The window without its last element; unchanged when empty.
    pub open spec fn drop_last(self) -> Self {
        if self.size() > 0 {
            self.with_bounds(self.start, self.end - 1)
        } else {
            self
        }
    }

    /// The window over the same backing sequence that shows nothing and sits
    /// at the end of this one.
    pub open spec fn emptied(self) -> Self {
        self.with_bounds(self.end, self.end)
    }

    /// The predicate `on` may be called on every element from position `from`
    /// on.
    pub open spec fn callable<F: Fn(&T) -> bool>(self, on: F, from: int) -> bool
        recommends
            self.wf(),
    {
        forall|i: int|
            from <= i < self.end && 0 <= i < self.items.len() ==> call_requires(
                on,
                (&#[trigger] self.items[i],),
            )
    }

    /// `marks` says of every position from `from` on what the predicate `on`
    /// answers for the element there.
    pub open spec fn marked_by<F: Fn(&T) -> bool>(
        self,
        on: F,
        marks: spec_fn(int) -> bool,
        from: int,
    ) -> bool {
        forall|i: int, b: bool|
            from <= i < self.end && #[trigger] call_ensures(on, (&self.items[i],), b) ==> b
                == marks(i)
    }

    /// The pieces cut the window: each shows a sub-range of it and is not
    /// empty, they lie one behind the other, and together they cover what the
    /// window shows.
    pub open spec fn cut_into(self, pieces: Seq<Self>) -> bool {
        &&& pieces.len() == 0 <==> self.size() == 0
        &&& forall|k: int|
            0 <= k < pieces.len() ==> (#[trigger] pieces[k]).within(self) && pieces[k].size() > 0
        &&& pieces.len() > 0 ==> pieces[0].start == self.start && pieces[pieces.len() - 1].end
            == self.end
        &&& forall|k: int|
            0 < k < pieces.len() ==> (#[trigger] pieces[k]).start == pieces[k - 1].end
    }

    /// The pieces cut the part of the window in front of `upto`: each shows
    /// a sub-range of the window and is not empty, and they lie one behind
    /// the other from the start of the window to `upto`.
    pub open spec fn cut_upto(self, pieces: Seq<Self>, upto: int) -> bool {
        &&& self.start <= upto <= self.end
        &&& forall|k: int|
            0 <= k < pieces.len() ==> (#[trigger] pieces[k]).within(self) && pieces[k].size() > 0
        &&& if pieces.len() == 0 {
            upto == self.start
        } else {
            pieces[0].start == self.start && pieces[pieces.len() - 1].end == upto
        }
        &&& forall|k: int|
            0 < k < pieces.len() ==> (#[trigger] pieces[k]).start == pieces[k - 1].end
    }

    /// The windows over the same backing sequence with the given bounds.
    pub open spec fn pieces(self, bounds: Seq<(int, int)>) -> Seq<Self> {
        bounds.map_values(|b: (int, int)| self.with_bounds(b.0, b.1))
    }

    /// The window cut in front of every marked position but the first: each
    /// piece after the first starts with a marked element.
    pub open spec fn split_including_start(self, marks: spec_fn(int) -> bool) -> Seq<Self> {
        self.pieces(pieces_between(self.start, self.end, marks))
    }

    /// As `split_including_start`, with the leading marked element taken off
    /// every piece but the first.
    pub open spec fn split(self, marks: spec_fn(int) -> bool) -> Seq<Self> {
        let parts = self.split_including_start(marks);
        Seq::new(parts.len(), |k: int| if k == 0 { parts[k] } else { parts[k].skip(1) })
    }

    /// The parts before and after the first marked position, if any is marked.
    pub open spec fn split_once(self, marks: spec_fn(int) -> bool) -> Option<(Self, Self)> {
        match first_marked(self.start, self.end, marks) {
            Some(i) => Some((self.with_bounds(self.start, i), self.with_bounds(i + 1, self.end))),
            None => None,
        }
    }

    /// The position, counted from the start of the window, of the first
    /// marked element.
    pub open spec fn find(self, marks: spec_fn(int) -> bool) -> Option<int> {
        match first_marked(self.start, self.end, marks) {
            Some(i) => Some(i - self.start),
            None => None,
        }
    }
}

/// A cut that reaches `from` reaches `to` with one more piece.
proof fn lemma_cut_further<T>(
    window: WindowView<T>,
    pieces: Seq<WindowView<T>>,
    from: int,
    to: int,
)
    requires
        window.cut_upto(pieces, from),
        from < to <= window.end,
    ensures
        window.cut_upto(pieces.push(window.with_bounds(from, to)), to),
{
    let more = pieces.push(window.with_bounds(from, to));
    assert forall|k: int| 0 <= k < more.len() implies (#[trigger] more[k]).within(window)
        && more[k].size() > 0 by {
        if k < pieces.len() {
            assert(pieces[k].within(window));
        }
    }
    assert forall|k: int| 0 < k < more.len() implies (#[trigger] more[k]).start == more[k
        - 1].end by {
        if k < pieces.len() {
            assert(pieces[k].start == pieces[k - 1].end);
        }
    }
}

/// A cut that reaches the end of a window that is not empty cuts the window.
proof fn lemma_cut_whole<T>(window: WindowView<T>, pieces: Seq<WindowView<T>>)
    requires
        window.cut_upto(pieces, window.end),
        window.start < window.end,
    ensures
        window.cut_into(pieces),
{
}

/// The smallest marked position in `[start, end)`, if there is one.
pub open spec fn first_marked(start: int, end: int, marks: spec_fn(int) -> bool) -> Option<int>
    decreases end - start,
{
    if start >= end {
        None
    } else if marks(start) {
        Some(start)
    } else {
        first_marked(start + 1, end, marks)
    }
}

/// The bounds of the pieces that `[start, end)` falls into when it is cut in
/// front of every marked position after the first one. The position `start`
/// itself is never cut at, so no piece is empty.
pub open spec fn pieces_between(start: int, end: int, marks: spec_fn(int) -> bool) -> Seq<
    (int, int),
>
    decreases end - start,
{
    if end <= start {
        Seq::empty()
    } else if end == start + 1 {
        seq![(start, end)]
    } else {
        let before = pieces_between(start, end - 1, marks);
        if marks(end - 1) {
            before.push((end - 1, end))
        } else {
            before.drop_last().push((before.last().0, end))
        }
    }
}

/// The views of a sequence of windows.
pub open spec fn window_views<'l, T>(windows: Seq<VecWindow<'l, T>>) -> Seq<WindowView<T>> {
    windows.map_values(|w: VecWindow<'l, T>| w@)
}

/// A borrowed view of the elements `start..end` of a vector.
#[derive(Debug, PartialEq, Eq)]
pub struct VecWindow<'l, T> {
    vec: &'l Vec<T>,
    /// inclusive
    start_index: usize,
    /// exclusive
    end_index: usize,
}

impl<'l, T> View for VecWindow<'l, T> {
    type V = WindowView<T>;

    closed spec fn view(&self) -> WindowView<T> {
        WindowView {
            items: self.vec@,
            start: self.start_index as int,
            end: self.end_index as int,
        }
    }
}

impl<'l, T> From<&'l Vec<T>> for VecWindow<'l, T> {
    /// A window over the whole vector.
    fn from(vec: &'l Vec<T>) -> (res: Self)
        ensures
            res@ == (WindowView { items: vec@, start: 0, end: vec@.len() as int }),
    {
        VecWindow { vec, start_index: 0, end_index: vec.len() }
    }
}

impl<'l, T> vstd::std_specs::convert::FromSpecImpl<&'l Vec<T>> for VecWindow<'l, T> {
    open spec fn obeys_from_spec() -> bool {
        true
    }

    closed spec fn from_spec(vec: &'l Vec<T>) -> Self {
        VecWindow { vec, start_index: 0, end_index: vec.len() }
    }
}

impl<'l, T> Clone for VecWindow<'l, T> {
    fn clone(&self) -> (res: Self)
        ensures
            res == *self,
    {
        proof {
            use_type_invariant(self);
        }
        VecWindow { vec: self.vec, start_index: self.start_index, end_index: self.end_index }
    }
}

impl<'l, T> VecWindow<'l, T> {
    /// Every window that exists at run time is well formed.
    #[verifier::type_invariant]
    pub closed spec fn inv(&self) -> bool {
        self@.wf()
    }

    /// A window over `vec[start_index..end_index]`, if those bounds are in
    /// order and inside the vector.
    pub fn new(vec: &'l Vec<T>, start_index: usize, end_index: usize) -> (res: Option<Self>)
        ensures
            res is Some <==> start_index <= end_index <= vec@.len(),
            res matches Some(w) ==> w@ == (WindowView {
                items: vec@,
                start: start_index as int,
                end: end_index as int,
            }),
    {
        if start_index > end_index {
            return None;
        }
        if end_index > vec.len() {
            return None;
        }
        Some(VecWindow { vec, start_index, end_index })
    }

    /// Does nothing; tells the caller's proof that the window it holds is well
    /// formed.
    pub fn well_formed(&self)
        ensures
            self@.wf(),
    {
        proof {
            use_type_invariant(self);
        }
    }

    /// Whether the window shows nothing.
    pub fn is_empty(&self) -> (res: bool)
        ensures
            self@.wf(),
            res == (self@.size() == 0),
    {
        proof {
            use_type_invariant(self);
        }
        self.start_index >= self.end_index
    }

    /// Size of the window.
    pub fn size(&self) -> (res: usize)
        ensures
            self@.wf(),
            res == self@.size(),
    {
        proof {
            use_type_invariant(self);
        }
        self.end_index - self.start_index
    }

    /// Start index, inclusive.
    pub fn start(&self) -> (res: usize)
        ensures
            self@.wf(),
            res == self@.start,
    {
        proof {
            use_type_invariant(self);
        }
        self.start_index
    }

    /// End index, exclusive.
    pub fn end(&self) -> (res: usize)
        ensures
            self@.wf(),
            res == self@.end,
    {
        proof {
            use_type_invariant(self);
        }
        self.end_index
    }

    /// First element if the window is not empty.
    pub fn first(&self) -> (res: Option<&'l T>)
        ensures
            self@.wf(),
            res is Some <==> self@.size() > 0,
            res matches Some(item) ==> *item == self@.items[self@.start],
    {
        proof {
            use_type_invariant(self);
        }
        if self.start_index >= self.end_index {
            None
        } else {
            Some(&self.vec[self.start_index])
        }
    }

    /// Last element if the window is not empty.
    pub fn last(&self) -> (res: Option<&'l T>)
        ensures
            self@.wf(),
            res is Some <==> self@.size() > 0,
            res matches Some(item) ==> *item == self@.items[self@.end - 1],
    {
        proof {
            use_type_invariant(self);
        }
        if self.start_index >= self.end_index {
            None
        } else {
            Some(&self.vec[self.end_index - 1])
        }
    }

    /// Get the element at the given index, relative to the start of the window.
    /// If the index is out of bounds, return None.
    pub fn get(&self, index: usize) -> (res: Option<&'l T>)
        ensures
            self@.wf(),
            res is Some <==> index < self@.size(),
            res matches Some(item) ==> *item == self@.at(index as int),
    {
        proof {
            use_type_invariant(self);
        }
        if index >= self.end_index - self.start_index {
            None
        } else {
            Some(&self.vec[index + self.start_index])
        }
    }

    /// Remove and return the first element of the window.
    pub fn pop_first(&mut self) -> (res: Option<&'l T>)
        ensures
            old(self)@.wf(),
            final(self)@ == old(self)@.drop_first(),
            res is Some <==> old(self)@.size() > 0,
            res matches Some(item) ==> *item == old(self)@.items[old(self)@.start],
    {
        proof {
            use_type_invariant(&*self);
        }
        if self.start_index >= self.end_index {
            None
        } else {
            let res = Some(&self.vec[self.start_index]);
            self.start_index += 1;
            res
        }
    }

    /// Remove and return the last element of the window.
    pub fn pop_last(&mut self) -> (res: Option<&'l T>)
        ensures
            old(self)@.wf(),
            final(self)@ == old(self)@.drop_last(),
            res is Some <==> old(self)@.size() > 0,
            res matches Some(item) ==> *item == old(self)@.items[old(self)@.end - 1],
    {
        proof {
            use_type_invariant(&*self);
        }
        if self.start_index >= self.end_index {
            None
        } else {
            let res = Some(&self.vec[self.end_index - 1]);
            self.end_index -= 1;
            res
        }
    }

    /// Skip the first n elements of the window.
    /// If n is greater than the size of the window, return an empty window.
    pub fn skip(self, n: usize) -> (res: Self)
        ensures
            self@.wf(),
            res@ == self@.skip(n as nat),
    {
        proof {
            use_type_invariant(&self);
        }
        let start_index = if n >= self.end_index - self.start_index {
            self.end_index
        } else {
            self.start_index + n
        };
        VecWindow { vec: self.vec, start_index, end_index: self.end_index }
    }

    /// Take the first n elements of the window.
    /// If n is greater than the size of the window, return the whole window.
    pub fn take(self, n: usize) -> (res: Self)
        ensures
            self@.wf(),
            res@ == self@.take(n as nat),
    {
        proof {
            use_type_invariant(&self);
        }
        let end_index = if n >= self.end_index - self.start_index {
            self.end_index
        } else {
            self.start_index + n
        };
        VecWindow { vec: self.vec, start_index: self.start_index, end_index }
    }

    /// Increase the start index of the window
    /// only if the new index is inside the window.
    pub fn shrink_start_to(&mut self, new_start: usize)
        ensures
            old(self)@.wf(),
            final(self)@ == old(self)@.shrink_start_to(new_start as int),
    {
        proof {
            use_type_invariant(&*self);
        }
        // if new_start == start_index nothing to do
        if new_start > self.start_index && new_start <= self.end_index {
            self.start_index = new_start;
        }
    }

    /// Decrease the end index of the window
    /// only if the new index is inside the window.
    pub fn shrink_end_to(&mut self, new_end: usize)
        ensures
            old(self)@.wf(),
            final(self)@ == old(self)@.shrink_end_to(new_end as int),
    {
        proof {
            use_type_invariant(&*self);
        }
        // if new_end == end_index nothing to do
        if new_end < self.end_index && new_end >= self.start_index {
            self.end_index = new_end;
        }
    }

    /// Empty the window: what is left shows nothing and sits at the end of
    /// what the window showed.
    pub fn empty(self) -> (res: Self)
        ensures
            self@.wf(),
            res@ == self@.emptied(),
    {
        proof {
            use_type_invariant(&self);
        }
        VecWindow { vec: self.vec, start_index: self.end_index, end_index: self.end_index }
    }

    /// Snip the window at the given index,
    /// creating two new windows the second one starting at the snip index.
    pub fn snip(self, at: usize) -> (res: Option<(Self, Self)>)
        ensures
            self@.wf(),
            res is Some <==> at < self@.size(),
            res matches Some((head, tail)) ==> {
                &&& head@ == self@.with_bounds(self@.start, self@.start + at)
                &&& tail@ == self@.with_bounds(self@.start + at, self@.end)
            },
    {
        proof {
            use_type_invariant(&self);
        }
        if at >= self.end_index - self.start_index {
            return None;
        }
        Some(
            (
                VecWindow {
                    vec: self.vec,
                    start_index: self.start_index,
                    end_index: self.start_index + at,
                },
                VecWindow {
                    vec: self.vec,
                    start_index: self.start_index + at,
                    end_index: self.end_index,
                },
            ),
        )
    }

    /// Get the index of the first element that matches the given function.
    ///
    /// Whenever `marks` tells of every position what `f` answers for the
    /// element there, the result is the first marked position, counted from
    /// the start of the window.
    pub fn find<F: Fn(&T) -> bool>(&self, f: F) -> (res: Option<usize>)
        requires
            self@.callable(f, self@.start),
        ensures
            self@.wf(),
            res matches Some(k) ==> k < self@.size(),
            forall|marks: spec_fn(int) -> bool|
                self@.marked_by(f, marks, self@.start) ==> match #[trigger] self@.find(marks) {
                    Some(i) => res matches Some(k) && k as int == i,
                    None => res is None,
                },
    {
        proof {
            use_type_invariant(self);
        }
        let mut i: usize = self.start_index;
        while i < self.end_index
            invariant
                self@.wf(),
                self.start_index <= i <= self.end_index,
                self@.callable(f, self@.start),
                forall|marks: spec_fn(int) -> bool|
                    self@.marked_by(f, marks, self@.start) ==> #[trigger] first_marked(
                        self@.start,
                        self@.end,
                        marks,
                    ) == first_marked(i as int, self@.end, marks),
            decreases self.end_index - i,
        {
            if f(&self.vec[i]) {
                return Some(i - self.start_index);
            }
            i += 1;
        }
        None
    }

    /// Split the window on the given function,
    /// removing the matching elements.
    ///
    /// The first element is never asked about: it stays in the first piece
    /// even if it matches. Whenever `marks` tells of every later position what
    /// `on` answers for the element there, the pieces are those of the
    /// window cut at the marked positions.
    pub fn split<F: Fn(&T) -> bool>(self, on: F) -> (res: Vec<Self>)
        requires
            self@.callable(on, self@.start + 1),
        ensures
            self@.wf(),
            res@.len() == 0 <==> self@.size() == 0,
            forall|k: int| 0 <= k < res@.len() ==> (#[trigger] res@[k])@.within(self@),
            forall|marks: spec_fn(int) -> bool|
                self@.marked_by(on, marks, self@.start + 1) ==> window_views(res@)
                    == #[trigger] self@.split(marks),
    {
        proof {
            use_type_invariant(&self);
        }
        let ghost whole = self@;
        let parts = self.split_including_start(on);
        assert(whole.cut_into(window_views(parts@)));
        let mut res: Vec<Self> = Vec::new();
        let mut k: usize = 0;
        while k < parts.len()
            invariant
                k <= parts.len(),
                res@.len() == k,
                whole.wf(),
                whole.cut_into(window_views(parts@)),
                forall|j: int| 0 <= j < k ==> (#[trigger] res@[j])@.within(whole),
                forall|j: int|
                    0 <= j < k ==> (#[trigger] res@[j])@ == if j == 0 {
                        parts@[j]@
                    } else {
                        parts@[j]@.skip(1)
                    },
            decreases parts.len() - k,
        {
            let part = parts[k].clone();
            assert(window_views(parts@)[k as int] == part@);
            assert(part@.within(whole));
            if k == 0 {
                res.push(part);
            } else {
                res.push(part.skip(1));
            }
            k += 1;
        }
        proof {
            assert forall|marks: spec_fn(int) -> bool|
                whole.marked_by(on, marks, whole.start + 1) implies window_views(res@)
                == #[trigger] whole.split(marks) by {
                assert(window_views(parts@) == whole.split_including_start(marks));
                assert(window_views(res@) =~= whole.split(marks));
            }
        }
        res
    }

    /// Split the window on the given function,
    /// including the matching elements
    /// in the window after the split.
    ///
    /// The first element is never asked about. Whenever `marks` tells of every
    /// later position what `on` answers for the element there, the pieces are
    /// those of the window cut in front of the marked positions.
    pub fn split_including_start<F: Fn(&T) -> bool>(self, on: F) -> (res: Vec<Self>)
        requires
            self@.callable(on, self@.start + 1),
        ensures
            self@.wf(),
            self@.cut_into(window_views(res@)),
            forall|marks: spec_fn(int) -> bool|
                self@.marked_by(on, marks, self@.start + 1) ==> window_views(res@)
                    == #[trigger] self@.split_including_start(marks),
    {
        proof {
            use_type_invariant(&self);
        }
        let mut res: Vec<Self> = Vec::new();
        if self.start_index >= self.end_index {
            assert(window_views(res@) =~= Seq::empty());
            return res;
        }
        let mut start: usize = self.start_index;
        let mut i: usize = self.start_index + 1;
        assert(window_views(res@) =~= Seq::<WindowView<T>>::empty());
        assert forall|marks: spec_fn(int) -> bool|
            true implies self@.pieces(#[trigger] pieces_between(self@.start, i as int, marks))
            == window_views(res@).push(self@.with_bounds(start as int, i as int)) by {
            assert(self@.pieces(pieces_between(self@.start, i as int, marks)) =~= window_views(
                res@,
            ).push(self@.with_bounds(start as int, i as int)));
        }
        // skip the first element because it's always in the first window
        while i < self.end_index
            invariant
                self@.wf(),
                self.start_index <= start < i <= self.end_index,
                self@.callable(on, self@.start + 1),
                self@.cut_upto(window_views(res@), start as int),
                forall|marks: spec_fn(int) -> bool|
                    self@.marked_by(on, marks, self@.start + 1) ==> self@.pieces(
                        #[trigger] pieces_between(self@.start, i as int, marks),
                    ) == window_views(res@).push(self@.with_bounds(start as int, i as int)),
            decreases self.end_index - i,
        {
            let ghost old_res = res@;
            let ghost old_start = start;
            let hit = on(&self.vec[i]);
            if hit {
                proof {
                    lemma_cut_further(self@, window_views(res@), start as int, i as int);
                }
                res.push(VecWindow { vec: self.vec, start_index: start, end_index: i });
                assert(window_views(res@) =~= window_views(old_res).push(
                    self@.with_bounds(start as int, i as int),
                ));
                start = i;
            }
            i += 1;
            proof {
                assert forall|marks: spec_fn(int) -> bool|
                    self@.marked_by(on, marks, self@.start + 1) implies self@.pieces(
                    #[trigger] pieces_between(self@.start, i as int, marks),
                ) == window_views(res@).push(self@.with_bounds(start as int, i as int)) by {
                    let before = pieces_between(self@.start, i - 1, marks);
                    assert(self@.pieces(before) == window_views(old_res).push(
                        self@.with_bounds(old_start as int, i - 1),
                    ));
                    assert(self@.pieces(before).len() == before.len());
                    assert(self@.pieces(before)[before.len() - 1] == self@.with_bounds(
                        before.last().0,
                        before.last().1,
                    ));
                    assert(hit == marks(i - 1));
                    let now = pieces_between(self@.start, i as int, marks);
                    if hit {
                        assert(now == before.push((i - 1, i as int)));
                        assert(res@ == old_res.push(res@[old_res.len() as int]));
                        assert(window_views(res@) =~= self@.pieces(before));
                    } else {
                        assert(now == before.drop_last().push((before.last().0, i as int)));
                        assert(before.last().0 == old_start);
                        assert forall|j: int| 0 <= j < before.len() - 1 implies self@.pieces(
                            before.drop_last(),
                        )[j] == window_views(old_res)[j] by {
                            assert(self@.pieces(before)[j] == window_views(old_res).push(
                                self@.with_bounds(old_start as int, i - 1),
                            )[j]);
                        }
                        assert(self@.pieces(before.drop_last()) =~= window_views(old_res));
                    }
                    assert(self@.pieces(now) =~= window_views(res@).push(
                        self@.with_bounds(start as int, i as int),
                    ));
                }
            }
        }
        // push the remaining window
        let ghost cut = res@;
        proof {
            lemma_cut_further(self@, window_views(cut), start as int, self@.end);
        }
        res.push(VecWindow { vec: self.vec, start_index: start, end_index: self.end_index });
        proof {
            assert(window_views(res@) =~= window_views(cut).push(
                self@.with_bounds(start as int, self@.end),
            ));
            lemma_cut_whole(self@, window_views(res@));
        }
        proof {
            assert forall|marks: spec_fn(int) -> bool|
                self@.marked_by(on, marks, self@.start + 1) implies window_views(res@)
                == #[trigger] self@.split_including_start(marks) by {
                assert(window_views(res@) =~= self@.pieces(
                    pieces_between(self@.start, self@.end, marks),
                ));
            }
        }
        res
    }

    /// Split the window once on the given function,
    /// removing the matching element.
    ///
    /// Whenever `marks` tells of every position what `on` answers for the
    /// element there, the two pieces are what stands before and behind the
    /// first marked position; without one there is no result.
    pub fn split_once<F: Fn(&T) -> bool>(self, on: F) -> (res: Option<(Self, Self)>)
        requires
            self@.callable(on, self@.start),
        ensures
            self@.wf(),
            res matches Some((head, tail)) ==> {
                &&& head@.within(self@)
                &&& tail@.within(self@)
                &&& head@.start == self@.start
                &&& tail@.start == head@.end + 1
                &&& tail@.end == self@.end
            },
            forall|marks: spec_fn(int) -> bool|
                self@.marked_by(on, marks, self@.start) ==> match #[trigger] self@.split_once(
                    marks,
                ) {
                    Some((head, tail)) => res matches Some((h, t)) && h@ == head && t@ == tail,
                    None => res is None,
                },
    {
        proof {
            use_type_invariant(&self);
        }
        let mut i: usize = self.start_index;
        while i < self.end_index
            invariant
                self@.wf(),
                self.start_index <= i <= self.end_index,
                self@.callable(on, self@.start),
                forall|marks: spec_fn(int) -> bool|
                    self@.marked_by(on, marks, self@.start) ==> #[trigger] first_marked(
                        self@.start,
                        self@.end,
                        marks,
                    ) == first_marked(i as int, self@.end, marks),
            decreases self.end_index - i,
        {
            if on(&self.vec[i]) {
                return Some(
                    (
                        VecWindow { vec: self.vec, start_index: self.start_index, end_index: i },
                        VecWindow { vec: self.vec, start_index: i + 1, end_index: self.end_index },
                    ),
                );
            }
            i += 1;
        }
        None
    }
}

/// One step that moves a bound of a window inward.
pub ghost enum Narrowing {
    Skip(nat),
    Take(nat),
    PopFirst,
    PopLast,
    ShrinkStartTo(int),
    ShrinkEndTo(int),
    Empty,
}

impl<T> WindowView<T> {
    /// The window after one narrowing step.
    pub open spec fn narrowed(self, step: Narrowing) -> Self {
        match step {
            Narrowing::Skip(n) => self.skip(n),
            Narrowing::Take(n) => self.take(n),
            Narrowing::PopFirst => self.drop_first(),
            Narrowing::PopLast => self.drop_last(),
            Narrowing::ShrinkStartTo(i) => self.shrink_start_to(i),
            Narrowing::ShrinkEndTo(i) => self.shrink_end_to(i),
            Narrowing::Empty => self.emptied(),
        }
    }

    /// The window after a run of narrowing steps, in order.
    pub open spec fn narrowed_by(self, steps: Seq<Narrowing>) -> Self
        decreases steps.len(),
    {
        if steps.len() == 0 {
            self
        } else {
            self.narrowed_by(steps.drop_last()).narrowed(steps.last())
        }
    }
}

/// Whatever run of `skip`, `take`, `pop_first`, `pop_last`,
/// `shrink_start_to`, `shrink_end_to` and `empty` is applied to a window,
/// what comes out is a window over the same elements that shows a sub-range
/// of the first, and so is no larger.
pub proof fn lemma_narrowing_stays_within<T>(window: WindowView<T>, steps: Seq<Narrowing>)
    requires
        window.wf(),
    ensures
        window.narrowed_by(steps).wf(),
        window.narrowed_by(steps).within(window),
        window.narrowed_by(steps).size() <= window.size(),
    decreases steps.len(),
{
    if steps.len() > 0 {
        lemma_narrowing_stays_within(window, steps.drop_last());
    }
}

/// The pieces of a cut lie one behind the other, none is empty, and together
/// they cover the range.
pub proof fn lemma_pieces_between(start: int, end: int, marks: spec_fn(int) -> bool)
    requires
        start < end,
    ensures
        pieces_between(start, end, marks).len() > 0,
        pieces_between(start, end, marks).first().0 == start,
        pieces_between(start, end, marks).last().1 == end,
        forall|k: int|
            0 <= k < pieces_between(start, end, marks).len() ==> start <= (
            #[trigger] pieces_between(start, end, marks)[k]).0 < pieces_between(
                start,
                end,
                marks,
            )[k].1 <= end,
        forall|k: int|
            0 < k < pieces_between(start, end, marks).len() ==> (#[trigger] pieces_between(
                start,
                end,
                marks,
            )[k]).0 == pieces_between(start, end, marks)[k - 1].1 && marks(
                pieces_between(start, end, marks)[k].0,
            ),
    decreases end - start,
{
    if end > start + 1 {
        lemma_pieces_between(start, end - 1, marks);
    }
}

/// Every piece that a split gives shows a sub-range of the window that was
/// split.
pub proof fn lemma_split_within<T>(window: WindowView<T>, marks: spec_fn(int) -> bool)
    requires
        window.wf(),
    ensures
        forall|k: int|
            0 <= k < window.split_including_start(marks).len() ==> (
            #[trigger] window.split_including_start(marks)[k]).within(window),
        forall|k: int|
            0 <= k < window.split(marks).len() ==> (#[trigger] window.split(marks)[k]).within(
                window,
            ),
{
    if window.start < window.end {
        lemma_pieces_between(window.start, window.end, marks);
    }
    let bounds = pieces_between(window.start, window.end, marks);
    assert forall|k: int| 0 <= k < window.split_including_start(marks).len() implies (
    #[trigger] window.split_including_start(marks)[k]).within(window) by {
        assert(window.split_including_start(marks)[k] == window.with_bounds(
            bounds[k].0,
            bounds[k].1,
        ));
    }
    assert forall|k: int| 0 <= k < window.split(marks).len() implies (#[trigger] window.split(
        marks,
    )[k]).within(window) by {
        assert(window.split_including_start(marks)[k].within(window));
    }
}

/// The position is marked.
pub open spec fn marked(marks: spec_fn(int) -> bool, i: int) -> bool {
    marks(i)
}

/// What a run of windows shows, one after the other.
pub open spec fn joined_content<T>(windows: Seq<WindowView<T>>) -> Seq<T>
    decreases windows.len(),
{
    if windows.len() == 0 {
        Seq::empty()
    } else {
        joined_content(windows.drop_last()) + windows.last().content()
    }
}

proof fn lemma_pieces_cover<T>(window: WindowView<T>, end: int, marks: spec_fn(int) -> bool)
    requires
        window.wf(),
        window.start <= end <= window.end,
    ensures
        joined_content(window.pieces(pieces_between(window.start, end, marks)))
            == window.items.subrange(window.start, end),
    decreases end - window.start,
{
    let start = window.start;
    let bounds = pieces_between(start, end, marks);
    let parts = window.pieces(bounds);
    if end <= start {
        assert(window.items.subrange(start, end) =~= Seq::<T>::empty());
    } else if end == start + 1 {
        assert(parts.drop_last() =~= Seq::<WindowView<T>>::empty());
        assert(joined_content(parts.drop_last()) =~= Seq::<T>::empty());
        assert(parts.last() == window.with_bounds(start, end));
        assert(joined_content(parts) =~= window.items.subrange(start, end));
    } else {
        lemma_pieces_cover(window, end - 1, marks);
        lemma_pieces_between(start, end - 1, marks);
        let before = pieces_between(start, end - 1, marks);
        let parts_before = window.pieces(before);
        if marks(end - 1) {
            assert(parts.drop_last() =~= parts_before);
            assert(parts.last() == window.with_bounds(end - 1, end));
            assert(joined_content(parts) =~= window.items.subrange(start, end));
        } else {
            assert(parts.drop_last() =~= parts_before.drop_last());
            assert(parts.last() == window.with_bounds(before.last().0, end));
            assert(parts_before.last() == window.with_bounds(before.last().0, end - 1));
            assert(joined_content(parts_before) == joined_content(parts_before.drop_last())
                + parts_before.last().content());
            assert(parts.last().content() =~= parts_before.last().content().push(
                window.items[end - 1],
            ));
            assert(joined_content(parts) =~= window.items.subrange(start, end));
        }
    }
}

/// The pieces of `split_including_start`, one after the other, show exactly
/// what the window shows: nothing is lost and nothing is copied.
pub proof fn lemma_split_including_start_covers<T>(
    window: WindowView<T>,
    marks: spec_fn(int) -> bool,
)
    requires
        window.wf(),
    ensures
        joined_content(window.split_including_start(marks)) == window.content(),
{
    lemma_pieces_cover(window, window.end, marks);
}

/// `split_once` cuts around the first marked element: what stands before
/// it, the element itself, and what stands behind it make up the window; and
/// no element before it is marked.
pub proof fn lemma_split_once_covers<T>(window: WindowView<T>, marks: spec_fn(int) -> bool)
    requires
        window.wf(),
    ensures
        match window.split_once(marks) {
            Some((head, tail)) => {
                &&& head.within(window)
                &&& tail.within(window)
                &&& head.end < window.end
                &&& marks(head.end)
                &&& forall|i: int| window.start <= i < head.end ==> !#[trigger] marked(marks, i)
                &&& window.content() == head.content().push(window.items[head.end])
                    + tail.content()
            },
            None => forall|i: int| window.start <= i < window.end ==> !#[trigger] marked(marks, i),
        },
{
    lemma_first_marked(window.start, window.end, marks);
    match window.split_once(marks) {
        Some((head, tail)) => {
            assert(window.content() =~= head.content().push(window.items[head.end])
                + tail.content());
        },
        None => {},
    }
}

proof fn lemma_first_marked(start: int, end: int, marks: spec_fn(int) -> bool)
    ensures
        match first_marked(start, end, marks) {
            Some(i) => start <= i < end && marks(i) && forall|k: int|
                start <= k < i ==> !#[trigger] marked(marks, k),
            None => forall|k: int| start <= k < end ==> !#[trigger] marked(marks, k),
        },
    decreases end - start,
{
    if start < end && !marks(start) {
        lemma_first_marked(start + 1, end, marks);
    }
}

} // verus!
