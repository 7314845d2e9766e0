use vstd::prelude::*;

verus! {

/// An integer grid coordinate.
#[derive(Clone, Copy, Debug, PartialEq, Eq, Structural, Hash)]
pub struct Vector2i {
    pub x: i32,
    pub y: i32,
}

impl Vector2i {
    pub fn new(x: i32, y: i32) -> (r: Vector2i)
        ensures
            r.x == x,
            r.y == y,
    {
        Vector2i { x, y }
    }
}

/// One of the four orthogonal directions. `Up` decreases `y`.
#[derive(Clone, Copy, Debug, PartialEq, Eq, Structural, Hash)]
pub enum Direction2D {
    Up,
    Down,
    Left,
    Right,
}

impl Direction2D {
    /// Slot of this direction in an island's bridge-state vector:
    /// up, right, down, left.
    pub open spec fn slot(self) -> int {
        match self {
            Direction2D::Up => 0,
            Direction2D::Right => 1,
            Direction2D::Down => 2,
            Direction2D::Left => 3,
        }
    }

    pub open spec fn spec_opposite(self) -> Direction2D {
        match self {
            Direction2D::Up => Direction2D::Down,
            Direction2D::Down => Direction2D::Up,
            Direction2D::Left => Direction2D::Right,
            Direction2D::Right => Direction2D::Left,
        }
    }

    pub fn index(self) -> (r: usize)
        ensures
            r == self.slot(),
    {
        match self {
            Direction2D::Up => 0,
            Direction2D::Right => 1,
            Direction2D::Down => 2,
            Direction2D::Left => 3,
        }
    }

    pub fn opposite(self) -> (r: Direction2D)
        ensures
            r == self.spec_opposite(),
    {
        match self {
            Direction2D::Up => Direction2D::Down,
            Direction2D::Down => Direction2D::Up,
            Direction2D::Left => Direction2D::Right,
            Direction2D::Right => Direction2D::Left,
        }
    }
}

/// Column of the cell `k` steps away from `p` in direction `d`.
pub open spec fn cell_x(p: Vector2i, d: Direction2D, k: int) -> int {
    match d {
        Direction2D::Left => p.x - k,
        Direction2D::Right => p.x + k,
        _ => p.x as int,
    }
}

/// Row of the cell `k` steps away from `p` in direction `d`.
pub open spec fn cell_y(p: Vector2i, d: Direction2D, k: int) -> int {
    match d {
        Direction2D::Up => p.y - k,
        Direction2D::Down => p.y + k,
        _ => p.y as int,
    }
}

/// The cell `k` steps away from `p` in direction `d`.
pub open spec fn cell(p: Vector2i, d: Direction2D, k: int) -> Vector2i {
    Vector2i { x: cell_x(p, d, k) as i32, y: cell_y(p, d, k) as i32 }
}

} // verus!

verus! {

/// Whether `v` holds `p`.
pub fn contains_point(v: &Vec<Vector2i>, p: Vector2i) -> (r: bool)
    ensures
        r == v@.contains(p),
{
    let mut i: usize = 0;
    while i < v.len()
        invariant
            i <= v@.len(),
            forall|j: int| 0 <= j < i ==> v@[j] != p,
        decreases v@.len() - i,
    {
        if v[i] == p {
            return true;
        }
        i = i + 1;
    }
    false
}

/// The index of `p` in `v`, if any.
pub fn find_point(v: &Vec<Vector2i>, p: Vector2i) -> (r: Option<usize>)
    ensures
        match r {
            Some(i) => i < v@.len() && v@[i as int] == p,
            None => !v@.contains(p),
        },
{
    let mut i: usize = 0;
    while i < v.len()
        invariant
            i <= v@.len(),
            forall|j: int| 0 <= j < i ==> v@[j] != p,
        decreases v@.len() - i,
    {
        if v[i] == p {
            return Some(i);
        }
        i = i + 1;
    }
    None
}

/// Removing one entry from a list without repeats takes exactly that entry
/// out of its set of elements.
pub proof fn lemma_remove_no_dup(s: Seq<Vector2i>, i: int)
    requires
        s.no_duplicates(),
        0 <= i < s.len(),
    ensures
        s.remove(i).no_duplicates(),
        s.remove(i).to_set() =~= s.to_set().remove(s[i]),
{
    let r = s.remove(i);
    assert forall|a: int, b: int| 0 <= a < r.len() && 0 <= b < r.len() && a != b implies r[a] != r[b] by {
        let sa = if a < i { a } else { a + 1 };
        let sb = if b < i { b } else { b + 1 };
        assert(r[a] == s[sa]);
        assert(r[b] == s[sb]);
    }
    assert forall|x: Vector2i| r.contains(x) <==> s.contains(x) && x != s[i] by {
        if r.contains(x) {
            let a = choose|a: int| 0 <= a < r.len() && r[a] == x;
            let sa = if a < i { a } else { a + 1 };
            assert(s[sa] == x);
        }
        if s.contains(x) && x != s[i] {
            let a = choose|a: int| 0 <= a < s.len() && s[a] == x;
            let ra = if a < i { a } else { a - 1 };
            assert(r[ra] == x);
        }
    }
}

/// Adds `p` to a list without repeats, unless it is there already.
pub fn insert_point(v: &mut Vec<Vector2i>, p: Vector2i)
    requires
        old(v)@.no_duplicates(),
    ensures
        final(v)@.no_duplicates(),
        final(v)@.to_set() == old(v)@.to_set().insert(p),
{
    if !contains_point(v, p) {
        v.push(p);
        proof {
            let s = old(v)@;
            assert forall|x: Vector2i| #[trigger] s.push(p).contains(x) <==> s.contains(x) || x == p by {
                if s.push(p).contains(x) && x != p {
                    let a = choose|a: int| 0 <= a < s.len() + 1 && s.push(p)[a] == x;
                    assert(s[a] == x);
                }
                if s.contains(x) {
                    let a = choose|a: int| 0 <= a < s.len() && s[a] == x;
                    assert(s.push(p)[a] == x);
                }
                if x == p {
                    assert(s.push(p)[s.len() as int] == x);
                }
            }
            assert(v@.to_set() =~= s.to_set().insert(p));
        }
    } else {
        assert(v@.to_set() =~= old(v)@.to_set().insert(p));
    }
}

/// Takes `p` out of a list without repeats, if it is there.
pub fn remove_point(v: &mut Vec<Vector2i>, p: Vector2i)
    requires
        old(v)@.no_duplicates(),
    ensures
        final(v)@.no_duplicates(),
        final(v)@.to_set() == old(v)@.to_set().remove(p),
{
    match find_point(v, p) {
        Some(i) => {
            proof {
                lemma_remove_no_dup(v@, i as int);
            }
            v.remove(i);
        },
        None => {
            assert(v@.to_set() =~= old(v)@.to_set().remove(p));
        },
    }
}

} // verus!

verus! {

/// The elements of a prefix one longer are those of the shorter prefix and
/// the next element.
pub proof fn lemma_prefix_set(s: Seq<Vector2i>, i: int)
    requires
        0 <= i < s.len(),
    ensures
        s.subrange(0, i + 1).to_set() =~= s.subrange(0, i).to_set().insert(s[i]),
{
    let a = s.subrange(0, i);
    let b = s.subrange(0, i + 1);
    assert forall|x: Vector2i| b.contains(x) <==> a.contains(x) || x == s[i] by {
        if b.contains(x) {
            let j = choose|j: int| 0 <= j < b.len() && b[j] == x;
            if j < i {
                assert(a[j] == x);
            }
        }
        if a.contains(x) {
            let j = choose|j: int| 0 <= j < a.len() && a[j] == x;
            assert(b[j] == x);
        }
        if x == s[i] {
            assert(b[i] == x);
        }
    }
}

/// Adds every point of `pts` to a list without repeats.
pub fn insert_all(v: &mut Vec<Vector2i>, pts: &Vec<Vector2i>)
    requires
        old(v)@.no_duplicates(),
    ensures
        final(v)@.no_duplicates(),
        final(v)@.to_set() == old(v)@.to_set().union(pts@.to_set()),
{
    let mut i: usize = 0;
    while i < pts.len()
        invariant
            i <= pts@.len(),
            v@.no_duplicates(),
            v@.to_set() == old(v)@.to_set().union(pts@.subrange(0, i as int).to_set()),
        decreases pts@.len() - i,
    {
        proof {
            lemma_prefix_set(pts@, i as int);
        }
        insert_point(v, pts[i]);
        assert(v@.to_set() =~= old(v)@.to_set().union(pts@.subrange(0, i + 1).to_set()));
        i = i + 1;
    }
    assert(pts@.subrange(0, pts@.len() as int) =~= pts@);
}

/// Takes every point of `pts` out of a list without repeats.
pub fn remove_all(v: &mut Vec<Vector2i>, pts: &Vec<Vector2i>)
    requires
        old(v)@.no_duplicates(),
    ensures
        final(v)@.no_duplicates(),
        final(v)@.to_set() == old(v)@.to_set().difference(pts@.to_set()),
{
    let mut i: usize = 0;
    while i < pts.len()
        invariant
            i <= pts@.len(),
            v@.no_duplicates(),
            v@.to_set() == old(v)@.to_set().difference(pts@.subrange(0, i as int).to_set()),
        decreases pts@.len() - i,
    {
        proof {
            lemma_prefix_set(pts@, i as int);
        }
        remove_point(v, pts[i]);
        assert(v@.to_set() =~= old(v)@.to_set().difference(pts@.subrange(0, i + 1).to_set()));
        i = i + 1;
    }
    assert(pts@.subrange(0, pts@.len() as int) =~= pts@);
}

} // verus!

verus! {

/// Both coordinates of the cell `k` steps from `p` towards `d` fit an `i32`.
pub open spec fn cell_fits(p: Vector2i, d: Direction2D, k: int) -> bool {
    i32::MIN <= cell_x(p, d, k) <= i32::MAX && i32::MIN <= cell_y(p, d, k) <= i32::MAX
}

/// Distinct steps from one point lead to distinct cells.
pub proof fn lemma_cell_injective(p: Vector2i, d1: Direction2D, k1: int, d2: Direction2D, k2: int)
    requires
        1 <= k1,
        1 <= k2,
        cell_fits(p, d1, k1),
        cell_fits(p, d2, k2),
        cell(p, d1, k1) == cell(p, d2, k2),
    ensures
        d1 == d2,
        k1 == k2,
{
    assert(cell(p, d1, k1).x == cell_x(p, d1, k1));
    assert(cell(p, d1, k1).y == cell_y(p, d1, k1));
    assert(cell(p, d2, k2).x == cell_x(p, d2, k2));
    assert(cell(p, d2, k2).y == cell_y(p, d2, k2));
}

/// Inserting a new element anywhere into a list without repeats keeps it
/// without repeats and adds exactly that element to its set.
pub proof fn lemma_insert_no_dup(s: Seq<Vector2i>, i: int, p: Vector2i)
    requires
        s.no_duplicates(),
        !s.contains(p),
        0 <= i <= s.len(),
    ensures
        s.insert(i, p).no_duplicates(),
        forall|x: Vector2i| #[trigger] s.insert(i, p).contains(x) <==> s.contains(x) || x == p,
{
    let r = s.insert(i, p);
    assert forall|a: int, b: int| 0 <= a < r.len() && 0 <= b < r.len() && a != b implies r[a] != r[b] by {
        if a != i && b != i {
            let sa = if a < i { a } else { a - 1 };
            let sb = if b < i { b } else { b - 1 };
            assert(r[a] == s[sa]);
            assert(r[b] == s[sb]);
        } else if a == i {
            let sb = if b < i { b } else { b - 1 };
            assert(r[b] == s[sb]);
        } else {
            let sa = if a < i { a } else { a - 1 };
            assert(r[a] == s[sa]);
        }
    }
    assert forall|x: Vector2i| #[trigger] r.contains(x) <==> s.contains(x) || x == p by {
        if r.contains(x) && x != p {
            let a = choose|a: int| 0 <= a < r.len() && r[a] == x;
            let sa = if a < i { a } else { a - 1 };
            assert(s[sa] == x);
        }
        if s.contains(x) {
            let a = choose|a: int| 0 <= a < s.len() && s[a] == x;
            let ra = if a < i { a } else { a + 1 };
            assert(r[ra] == x);
        }
        if x == p {
            assert(r[i] == x);
        }
    }
}

} // verus!

verus! {

/// `p1` comes before `p2`: smaller column first, then smaller row.
pub open spec fn precedes(p1: Vector2i, p2: Vector2i) -> bool {
    p1.x < p2.x || (p1.x == p2.x && p1.y <= p2.y)
}

/// The two points in order: by column, then by row; equal points keep their
/// order.
pub fn order_vector2i(p1: Vector2i, p2: Vector2i) -> (r: (Vector2i, Vector2i))
    ensures
        (r == (p1, p2) && precedes(p1, p2)) || (r == (p2, p1) && !precedes(p1, p2)),
{
    if p1.x != p2.x {
        if p1.x < p2.x {
            (p1, p2)
        } else {
            (p2, p1)
        }
    } else if p1.y != p2.y {
        if p1.y < p2.y {
            (p1, p2)
        } else {
            (p2, p1)
        }
    } else {
        (p1, p2)
    }
}

} // verus!
