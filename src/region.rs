//! Choosing the monitor that serves a capture request, and clamping the
//! request to that monitor.

use vstd::prelude::*;

verus! {

/// A requested rectangle in desktop coordinates.
#[derive(Clone, Copy, Debug, PartialEq, Eq, Structural)]
pub struct Rect {
    pub x: i32,
    pub y: i32,
    pub width: u32,
    pub height: u32,
}

/// One monitor's bounds in desktop coordinates; the origin may be negative.
#[derive(Clone, Copy, Debug, PartialEq, Eq, Structural)]
pub struct MonitorDescriptor {
    pub id: u32,
    pub x: i32,
    pub y: i32,
    pub width: u32,
    pub height: u32,
}

/// The monitor chosen for a request (and its position in the list it came
/// from), with the capture rectangle relative to that monitor's origin.
#[derive(Clone, Copy, Debug, PartialEq, Eq, Structural)]
pub struct ResolvedRegion {
    pub index: usize,
    pub monitor: MonitorDescriptor,
    pub rel_x: u32,
    pub rel_y: u32,
    pub width: u32,
    pub height: u32,
}

#[derive(Clone, Copy, Debug, PartialEq, Eq, Structural)]
pub enum RegionError {
    /// No monitor overlaps the request or contains its top-left corner.
    NoMonitorFound,
}

pub open spec fn min_int(a: int, b: int) -> int {
    if a <= b { a } else { b }
}

pub open spec fn max_int(a: int, b: int) -> int {
    if a >= b { a } else { b }
}

/// Area of the intersection of a monitor's bounds with a request.
pub open spec fn overlap_area(m: MonitorDescriptor, r: Rect) -> int {
    let ox = max_int(m.x as int, r.x as int);
    let oy = max_int(m.y as int, r.y as int);
    let ow = max_int(0, min_int(m.x + m.width, r.x + r.width) - ox);
    let oh = max_int(0, min_int(m.y + m.height, r.y + r.height) - oy);
    ow * oh
}

/// The monitor's bounds hold the request's top-left corner.
pub open spec fn contains_origin(m: MonitorDescriptor, r: Rect) -> bool {
    &&& r.x >= m.x
    &&& r.y >= m.y
    &&& r.x < m.x + m.width
    &&& r.y < m.y + m.height
}

/// `i` is the first monitor with the greatest overlap, and that overlap is
/// not empty.
pub open spec fn is_best_overlap(ms: Seq<MonitorDescriptor>, r: Rect, i: int) -> bool {
    &&& 0 <= i < ms.len()
    &&& overlap_area(ms[i], r) > 0
    &&& forall|j: int| 0 <= j < ms.len() ==> overlap_area(#[trigger] ms[j], r) <= overlap_area(ms[i], r)
    &&& forall|j: int| 0 <= j < i ==> overlap_area(#[trigger] ms[j], r) < overlap_area(ms[i], r)
}

pub open spec fn no_overlap(ms: Seq<MonitorDescriptor>, r: Rect) -> bool {
    forall|j: int| 0 <= j < ms.len() ==> overlap_area(#[trigger] ms[j], r) == 0
}

/// `i` is the first monitor that contains the request's top-left corner.
pub open spec fn is_first_containing(ms: Seq<MonitorDescriptor>, r: Rect, i: int) -> bool {
    &&& 0 <= i < ms.len()
    &&& contains_origin(ms[i], r)
    &&& forall|j: int| 0 <= j < i ==> !contains_origin(#[trigger] ms[j], r)
}

pub open spec fn none_contains(ms: Seq<MonitorDescriptor>, r: Rect) -> bool {
    forall|j: int| 0 <= j < ms.len() ==> !contains_origin(#[trigger] ms[j], r)
}

/// The monitor that serves the request: the best overlap, or failing any
/// overlap, the first monitor holding the top-left corner.
pub open spec fn is_chosen(ms: Seq<MonitorDescriptor>, r: Rect, i: int) -> bool {
    is_best_overlap(ms, r, i) || (no_overlap(ms, r) && is_first_containing(ms, r, i))
}

/// The capture rectangle on monitor `m`: the request's offset from the
/// monitor's origin, pulled up to zero, and its size cut to what is left of
/// the monitor.
pub open spec fn region_on(m: MonitorDescriptor, index: int, r: Rect) -> ResolvedRegion {
    let rel_x = max_int(0, r.x - m.x);
    let rel_y = max_int(0, r.y - m.y);
    ResolvedRegion {
        index: index as usize,
        monitor: m,
        rel_x: rel_x as u32,
        rel_y: rel_y as u32,
        width: min_int(r.width as int, max_int(0, m.width - rel_x)) as u32,
        height: min_int(r.height as int, max_int(0, m.height - rel_y)) as u32,
    }
}

fn overlap_of(m: &MonitorDescriptor, r: &Rect) -> (area: u64)
    ensures
        area == overlap_area(*m, *r),
{
    let ox: i64 = if m.x >= r.x { m.x as i64 } else { r.x as i64 };
    let oy: i64 = if m.y >= r.y { m.y as i64 } else { r.y as i64 };
    let m_right: i64 = m.x as i64 + m.width as i64;
    let r_right: i64 = r.x as i64 + r.width as i64;
    let m_bottom: i64 = m.y as i64 + m.height as i64;
    let r_bottom: i64 = r.y as i64 + r.height as i64;
    let right: i64 = if m_right <= r_right { m_right } else { r_right };
    let bottom: i64 = if m_bottom <= r_bottom { m_bottom } else { r_bottom };
    let ow: u64 = if right - ox > 0 { (right - ox) as u64 } else { 0 };
    let oh: u64 = if bottom - oy > 0 { (bottom - oy) as u64 } else { 0 };
    assert(ow <= u32::MAX && oh <= u32::MAX);
    assert(ow * oh <= u32::MAX * u32::MAX) by (nonlinear_arith)
        requires
            ow <= u32::MAX,
            oh <= u32::MAX,
    ;
    ow * oh
}

proof fn lemma_overlap_reaches(m: MonitorDescriptor, r: Rect)
    requires
        overlap_area(m, r) > 0,
    ensures
        r.x < m.x + m.width,
        r.y < m.y + m.height,
{
    let ox = max_int(m.x as int, r.x as int);
    let oy = max_int(m.y as int, r.y as int);
    let ow = max_int(0, min_int(m.x + m.width, r.x + r.width) - ox);
    let oh = max_int(0, min_int(m.y + m.height, r.y + r.height) - oy);
    assert(ow > 0 && oh > 0) by (nonlinear_arith)
        requires
            ow * oh > 0,
            ow >= 0,
            oh >= 0,
    ;
}

fn holds_origin(m: &MonitorDescriptor, r: &Rect) -> (b: bool)
    ensures
        b == contains_origin(*m, *r),
{
    let mx: i64 = m.x as i64;
    let my: i64 = m.y as i64;
    let sx: i64 = r.x as i64;
    let sy: i64 = r.y as i64;
    sx >= mx && sy >= my && sx < mx + m.width as i64 && sy < my + m.height as i64
}

fn region_for(m: &MonitorDescriptor, index: usize, r: &Rect) -> (reg: ResolvedRegion)
    ensures
        reg == region_on(*m, index as int, *r),
        r.x < m.x + m.width ==> reg.rel_x + reg.width <= m.width,
        r.y < m.y + m.height ==> reg.rel_y + reg.height <= m.height,
{
    let dx: i64 = r.x as i64 - m.x as i64;
    let dy: i64 = r.y as i64 - m.y as i64;
    let rel_x: u32 = if dx > 0 { dx as u32 } else { 0 };
    let rel_y: u32 = if dy > 0 { dy as u32 } else { 0 };
    let max_w: u32 = m.width.saturating_sub(rel_x);
    let max_h: u32 = m.height.saturating_sub(rel_y);
    let width: u32 = if r.width <= max_w { r.width } else { max_w };
    let height: u32 = if r.height <= max_h { r.height } else { max_h };
    ResolvedRegion { index, monitor: *m, rel_x, rel_y, width, height }
}

/// Picks the monitor that serves a capture request and the part of it to
/// capture. Among monitors that overlap the request, the one with the
/// greatest overlap wins, the first listed on ties; when none overlaps, the
/// first monitor that holds the request's top-left corner is taken. The
/// capture rectangle always lies within the chosen monitor.
pub fn resolve_capture_region(requested: &Rect, monitors: &Vec<MonitorDescriptor>) -> (res:
    Result<ResolvedRegion, RegionError>)
    ensures
        match res {
            Ok(reg) => {
                &&& is_chosen(monitors@, *requested, reg.index as int)
                &&& reg == region_on(monitors@[reg.index as int], reg.index as int, *requested)
                &&& reg.rel_x + reg.width <= reg.monitor.width
                &&& reg.rel_y + reg.height <= reg.monitor.height
            },
            Err(e) => {
                &&& e == RegionError::NoMonitorFound
                &&& no_overlap(monitors@, *requested)
                &&& none_contains(monitors@, *requested)
            },
        },
{
    let mut best: Option<(usize, u64)> = None;
    let n = monitors.len();
    let mut i: usize = 0;
    while i < n
        invariant
            n == monitors.len(),
            i <= n,
            match best {
                None => forall|j: int| 0 <= j < i ==> overlap_area(#[trigger] monitors@[j], *requested) == 0,
                Some((b, a)) => {
                    &&& b < i
                    &&& a == overlap_area(monitors@[b as int], *requested)
                    &&& a > 0
                    &&& forall|j: int| 0 <= j < i ==> overlap_area(#[trigger] monitors@[j], *requested) <= a
                    &&& forall|j: int| 0 <= j < b ==> overlap_area(#[trigger] monitors@[j], *requested) < a
                },
            },
        decreases n - i,
    {
        let area = overlap_of(&monitors[i], requested);
        assert(overlap_area(monitors@[i as int], *requested) >= 0) by (nonlinear_arith);
        if area > 0 {
            match best {
                None => {
                    best = Some((i, area));
                },
                Some((_, best_area)) => {
                    if area > best_area {
                        best = Some((i, area));
                    }
                },
            }
        }
        i = i + 1;
    }
    match best {
        Some((b, _)) => {
            proof {
                lemma_overlap_reaches(monitors@[b as int], *requested);
            }
            let reg = region_for(&monitors[b], b, requested);
            Ok(reg)
        },
        None => {
            let mut k: usize = 0;
            while k < n
                invariant
                    n == monitors.len(),
                    k <= n,
                    no_overlap(monitors@, *requested),
                    forall|j: int| 0 <= j < k ==> !contains_origin(#[trigger] monitors@[j], *requested),
                decreases n - k,
            {
                if holds_origin(&monitors[k], requested) {
                    let reg = region_for(&monitors[k], k, requested);
                    return Ok(reg);
                }
                k = k + 1;
            }
            Err(RegionError::NoMonitorFound)
        },
    }
}

} // verus!
