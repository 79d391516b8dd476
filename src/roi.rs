//! Regions of interest: named rectangles of a frame whose content is read
//! by text recognition, and the name-keyed list that holds them.
use vstd::prelude::*;

verus! {

/// What is extracted from a region.
#[derive(Clone, Copy, Debug, PartialEq, Eq, Structural)]
pub enum RegionOfInterestType {
    Text,
}

/// The stream resolution that a region's coordinates were measured at.
#[derive(Clone, Copy, Debug, PartialEq, Eq, Structural)]
pub enum StreamResolution {
    HD720p,
    HD1080p,
}

/// A plain rectangle: top-left corner and size, in pixels.
#[derive(Clone, Copy, Debug, PartialEq, Eq, Structural)]
pub struct Rect {
    pub x: i32,
    pub y: i32,
    pub width: i32,
    pub height: i32,
}

/// A named sub-rectangle of a frame, with the text recognised in it, if any.
#[derive(Clone, Debug)]
pub struct RegionOfInterest {
    pub x: i32,
    pub y: i32,
    pub width: i32,
    pub height: i32,
    pub roi_type: RegionOfInterestType,
    pub result: Option<String>,
    pub name: String,
    pub base_resolution: StreamResolution,
}

/// A text region with no result yet.
pub fn new_region(
    name: String,
    x: i32,
    y: i32,
    width: i32,
    height: i32,
    res: StreamResolution,
) -> (r: RegionOfInterest)
    ensures
        r.name == name,
        r.x == x,
        r.y == y,
        r.width == width,
        r.height == height,
        r.roi_type == RegionOfInterestType::Text,
        r.result.is_none(),
        r.base_resolution == res,
{
    RegionOfInterest {
        x,
        y,
        width,
        height,
        roi_type: RegionOfInterestType::Text,
        result: None,
        name,
        base_resolution: res,
    }
}

/// A copy of an optional text.
pub fn copy_text(s: &Option<String>) -> (r: Option<String>)
    ensures
        r == *s,
{
    match s {
        Some(t) => Some(t.clone()),
        None => None,
    }
}

impl RegionOfInterest {
    /// Records the text recognised in the region.
    pub fn set_result(&mut self, result: String)
        ensures
            *final(self) == (RegionOfInterest { result: Some(result), ..*old(self) }),
    {
        self.result = Some(result);
    }

    /// A field-by-field copy of the region.
    pub fn duplicate(&self) -> (r: RegionOfInterest)
        ensures
            r == *self,
    {
        RegionOfInterest {
            x: self.x,
            y: self.y,
            width: self.width,
            height: self.height,
            roi_type: self.roi_type,
            result: copy_text(&self.result),
            name: self.name.clone(),
            base_resolution: self.base_resolution,
        }
    }

    /// The region's rectangle.
    pub fn rect(&self) -> (r: Rect)
        ensures
            r == (Rect { x: self.x, y: self.y, width: self.width, height: self.height }),
    {
        Rect { x: self.x, y: self.y, width: self.width, height: self.height }
    }
}

/// No two regions of `s` have the same name.
pub open spec fn unique_names(s: Seq<RegionOfInterest>) -> bool {
    forall|i: int, j: int|
        0 <= i < s.len() && 0 <= j < s.len() && i != j ==> #[trigger] s[i].name@ != #[trigger] s[j].name@
}

/// Some region of `s` is named `name`.
pub open spec fn has_name(s: Seq<RegionOfInterest>, name: Seq<char>) -> bool {
    exists|i: int| 0 <= i < s.len() && #[trigger] s[i].name@ == name
}

/// The regions of `s` as a map from name to region.
pub open spec fn as_map(s: Seq<RegionOfInterest>) -> Map<Seq<char>, RegionOfInterest> {
    Map::new(
        |n: Seq<char>| has_name(s, n),
        |n: Seq<char>| s[choose|i: int| 0 <= i < s.len() && #[trigger] s[i].name@ == n],
    )
}

/// One log line per region, in order: the name, a tab, then the result.
pub open spec fn log_of(s: Seq<RegionOfInterest>) -> Seq<char>
    decreases s.len(),
{
    if s.len() == 0 {
        Seq::empty()
    } else {
        log_of(s.drop_last()) + s.last().name@ + seq!['\t'] + s.last().result.unwrap()@
    }
}

/// Regions keyed by name; adding a region under a name already present
/// replaces the earlier one in place.
#[derive(Debug)]
pub struct RegionOfInterestList {
    list: Vec<RegionOfInterest>,
}

impl View for RegionOfInterestList {
    type V = Seq<RegionOfInterest>;

    closed spec fn view(&self) -> Seq<RegionOfInterest> {
        self.list@
    }
}

impl Clone for RegionOfInterestList {
    fn clone(&self) -> (r: Self)
        ensures
            r@ == self@,
    {
        self.duplicate()
    }
}

/// An empty list.
pub fn new_region_list() -> (r: RegionOfInterestList)
    ensures
        r@ == Seq::<RegionOfInterest>::empty(),
{
    RegionOfInterestList { list: Vec::new() }
}

impl RegionOfInterestList {
    #[verifier::type_invariant]
    spec fn inv(&self) -> bool {
        unique_names(self.list@)
    }

    fn position(&self, name: &String) -> (r: Option<usize>)
        ensures
            match r {
                Some(i) => i < self@.len() && self@[i as int].name@ == name@,
                None => !has_name(self@, name@),
            },
    {
        let mut i: usize = 0;
        while i < self.list.len()
            invariant
                i <= self.list@.len(),
                forall|k: int| 0 <= k < i ==> #[trigger] self.list@[k].name@ != name@,
            decreases self.list@.len() - i,
        {
            if self.list[i].name == *name {
                return Some(i);
            }
            i += 1;
        }
        None
    }

    /// Stores `region` under its name: it replaces the region of that name if
    /// there is one, else it is appended.
    pub fn add_region(&mut self, region: RegionOfInterest)
        ensures
            has_name(old(self)@, region.name@) ==> exists|i: int|
                0 <= i < old(self)@.len() && old(self)@[i].name@ == region.name@ && final(self)@
                    == old(self)@.update(i, region),
            !has_name(old(self)@, region.name@) ==> final(self)@ == old(self)@.push(region),
            as_map(final(self)@) == as_map(old(self)@).insert(region.name@, region),
    {
        proof {
            use_type_invariant(&*self);
        }
        let ghost before = self.list@;
        let pos = self.position(&region.name);
        let mut taken = RegionOfInterestList { list: Vec::new() };
        core::mem::swap(self, &mut taken);
        let RegionOfInterestList { list: mut list } = taken;
        match pos {
            Some(i) => {
                list.set(i, region);
                proof {
                    lemma_update_map(before, i as int, region);
                }
            },
            None => {
                list.push(region);
                proof {
                    lemma_push_map(before, region);
                }
            },
        }
        *self = RegionOfInterestList { list };
    }

    /// A copy of the list, region by region.
    pub fn duplicate(&self) -> (r: RegionOfInterestList)
        ensures
            r@ == self@,
    {
        proof {
            use_type_invariant(self);
        }
        let mut out: Vec<RegionOfInterest> = Vec::new();
        let mut i: usize = 0;
        while i < self.list.len()
            invariant
                i <= self.list@.len(),
                out@ == self.list@.subrange(0, i as int),
            decreases self.list@.len() - i,
        {
            out.push(self.list[i].duplicate());
            i += 1;
            proof {
                assert(out@ =~= self.list@.subrange(0, i as int));
            }
        }
        proof {
            assert(out@ =~= self.list@);
        }
        RegionOfInterestList { list: out }
    }

    /// Builds a text region from its parts and stores it as `add_region` does.
    pub fn add_new_region(
        &mut self,
        name: String,
        x: i32,
        y: i32,
        width: i32,
        height: i32,
        res: StreamResolution,
    )
        ensures
            as_map(final(self)@) == as_map(old(self)@).insert(
                name@,
                RegionOfInterest {
                    x,
                    y,
                    width,
                    height,
                    roi_type: RegionOfInterestType::Text,
                    result: None,
                    name,
                    base_resolution: res,
                },
            ),
            has_name(old(self)@, name@) ==> final(self)@.len() == old(self)@.len(),
            !has_name(old(self)@, name@) ==> final(self)@ == old(self)@.push(
                RegionOfInterest {
                    x,
                    y,
                    width,
                    height,
                    roi_type: RegionOfInterestType::Text,
                    result: None,
                    name,
                    base_resolution: res,
                },
            ),
    {
        let region = new_region(name, x, y, width, height, res);
        self.add_region(region);
    }

    /// The region named `region_name`, if any.
    pub fn get_value(&self, region_name: String) -> (r: Option<&RegionOfInterest>)
        ensures
            match r {
                Some(v) => has_name(self@, region_name@) && *v == as_map(self@)[region_name@],
                None => !has_name(self@, region_name@),
            },
    {
        proof {
            use_type_invariant(self);
        }
        match self.position(&region_name) {
            Some(i) => {
                proof {
                    lemma_map_at(self@, i as int);
                }
                Some(&self.list[i])
            },
            None => None,
        }
    }

    /// Each region with its name, in the list's order.
    pub fn iter(&self) -> (r: Vec<(String, RegionOfInterest)>)
        ensures
            r@.len() == self@.len(),
            forall|i: int| 0 <= i < r@.len() ==> #[trigger] r@[i] == (self@[i].name, self@[i]),
    {
        let mut out: Vec<(String, RegionOfInterest)> = Vec::new();
        let mut i: usize = 0;
        while i < self.list.len()
            invariant
                i <= self.list@.len(),
                out@.len() == i,
                forall|k: int| 0 <= k < i ==> #[trigger] out@[k] == (self.list@[k].name, self.list@[k]),
            decreases self.list@.len() - i,
        {
            let region = self.list[i].duplicate();
            out.push((region.name.clone(), region));
            i += 1;
        }
        out
    }

    /// The number of regions, saturated at `i32::MAX`.
    pub fn len(&self) -> (r: i32)
        ensures
            r as int == if self@.len() <= i32::MAX { self@.len() as int } else { i32::MAX as int },
    {
        let n = self.list.len();
        if n <= i32::MAX as usize {
            n as i32
        } else {
            i32::MAX
        }
    }

    /// Whether the list holds no region.
    pub fn is_empty(&self) -> (r: bool)
        ensures
            r == (self@.len() == 0),
    {
        self.list.is_empty()
    }

    /// The log of the list: for each region, its name, a tab and its result,
    /// with nothing between regions.
    pub fn get_log(&self) -> (r: String)
        requires
            forall|i: int| 0 <= i < self@.len() ==> (#[trigger] self@[i]).result.is_some(),
        ensures
            r@ == log_of(self@),
    {
        let mut out = String::new();
        let mut i: usize = 0;
        proof {
            reveal_strlit("\t");
            assert("\t"@ =~= seq!['\t']);
        }
        while i < self.list.len()
            invariant
                i <= self@.len(),
                self@ == self.list@,
                out@ == log_of(self@.subrange(0, i as int)),
                forall|k: int| 0 <= k < self@.len() ==> (#[trigger] self@[k]).result.is_some(),
                "\t"@ == seq!['\t'],
            decreases self@.len() - i,
        {
            let region = &self.list[i];
            let ghost before = out@;
            out.append(region.name.as_str());
            out.append("\t");
            match &region.result {
                Some(t) => out.append(t.as_str()),
                None => {},
            }
            proof {
                let s = self@.subrange(0, i + 1);
                assert(s.drop_last() =~= self@.subrange(0, i as int));
                assert(s.last() == self@[i as int]);
                assert(out@ =~= before + self@[i as int].name@ + seq!['\t'] + self@[i as int].result.unwrap()@);
            }
            i += 1;
        }
        proof {
            assert(self@.subrange(0, self@.len() as int) =~= self@);
        }
        out
    }

    /// The rectangle of each region, in the list's order.
    pub fn vec_of_rects(&self) -> (r: Vec<Rect>)
        ensures
            r@.len() == self@.len(),
            forall|i: int| 0 <= i < r@.len() ==> #[trigger] r@[i] == self@[i].rect_spec(),
    {
        let mut out: Vec<Rect> = Vec::new();
        let mut i: usize = 0;
        while i < self.list.len()
            invariant
                i <= self.list@.len(),
                out@.len() == i,
                forall|k: int| 0 <= k < i ==> #[trigger] out@[k] == self.list@[k].rect_spec(),
            decreases self.list@.len() - i,
        {
            out.push(self.list[i].rect());
            i += 1;
        }
        out
    }
}

impl RegionOfInterest {
    /// The region's rectangle, in specifications.
    pub open spec fn rect_spec(&self) -> Rect {
        Rect { x: self.x, y: self.y, width: self.width, height: self.height }
    }
}

proof fn lemma_map_at(s: Seq<RegionOfInterest>, i: int)
    requires
        unique_names(s),
        0 <= i < s.len(),
    ensures
        has_name(s, s[i].name@),
        as_map(s)[s[i].name@] == s[i],
{
    let n = s[i].name@;
    assert(has_name(s, n));
    let j = choose|j: int| 0 <= j < s.len() && #[trigger] s[j].name@ == n;
    assert(j == i);
}

proof fn lemma_update_map(s: Seq<RegionOfInterest>, i: int, r: RegionOfInterest)
    requires
        unique_names(s),
        0 <= i < s.len(),
        s[i].name@ == r.name@,
    ensures
        unique_names(s.update(i, r)),
        as_map(s.update(i, r)) == as_map(s).insert(r.name@, r),
{
    let t = s.update(i, r);
    assert(unique_names(t)) by {
        assert forall|a: int, b: int| 0 <= a < t.len() && 0 <= b < t.len() && a != b implies
            #[trigger] t[a].name@ != #[trigger] t[b].name@ by {
            assert(s[a].name@ != s[b].name@);
        }
    }
    assert forall|n: Seq<char>| has_name(t, n) == (has_name(s, n) || n == r.name@) by {
        if has_name(s, n) {
            let k = choose|k: int| 0 <= k < s.len() && #[trigger] s[k].name@ == n;
            assert(t[k].name@ == n);
        }
        if has_name(t, n) {
            let k = choose|k: int| 0 <= k < t.len() && #[trigger] t[k].name@ == n;
            assert(s[k].name@ == n);
        }
        if n == r.name@ {
            assert(t[i].name@ == n);
        }
    }
    assert forall|n: Seq<char>| #[trigger] has_name(t, n) implies as_map(t)[n] == as_map(
        s,
    ).insert(r.name@, r)[n] by {
        let k = choose|k: int| 0 <= k < t.len() && #[trigger] t[k].name@ == n;
        lemma_map_at(t, k);
        if n != r.name@ {
            lemma_map_at(s, k);
        }
    }
    assert(as_map(t) =~= as_map(s).insert(r.name@, r));
}

proof fn lemma_push_map(s: Seq<RegionOfInterest>, r: RegionOfInterest)
    requires
        unique_names(s),
        !has_name(s, r.name@),
    ensures
        unique_names(s.push(r)),
        as_map(s.push(r)) == as_map(s).insert(r.name@, r),
{
    let t = s.push(r);
    assert(unique_names(t)) by {
        assert forall|a: int, b: int| 0 <= a < t.len() && 0 <= b < t.len() && a != b implies
            #[trigger] t[a].name@ != #[trigger] t[b].name@ by {
            if a < s.len() && b < s.len() {
                assert(s[a].name@ != s[b].name@);
            } else if a < s.len() {
                assert(s[a].name@ != r.name@);
            } else {
                assert(s[b].name@ != r.name@);
            }
        }
    }
    assert forall|n: Seq<char>| has_name(t, n) == (has_name(s, n) || n == r.name@) by {
        if has_name(s, n) {
            let k = choose|k: int| 0 <= k < s.len() && #[trigger] s[k].name@ == n;
            assert(t[k].name@ == n);
        }
        if has_name(t, n) {
            let k = choose|k: int| 0 <= k < t.len() && #[trigger] t[k].name@ == n;
            if k < s.len() {
                assert(s[k].name@ == n);
            }
        }
        if n == r.name@ {
            assert(t[s.len() as int].name@ == n);
        }
    }
    assert forall|n: Seq<char>| #[trigger] has_name(t, n) implies as_map(t)[n] == as_map(
        s,
    ).insert(r.name@, r)[n] by {
        let k = choose|k: int| 0 <= k < t.len() && #[trigger] t[k].name@ == n;
        lemma_map_at(t, k);
        if n != r.name@ {
            lemma_map_at(s, k);
        }
    }
    assert(as_map(t) =~= as_map(s).insert(r.name@, r));
}

} // verus!
