//! Java package names, as dotted paths of segments.

use vstd::prelude::*;

use crate::text::{same_text, split, split_pieces};

verus! {

/// A package (or a type or member inside one): its dot-separated segments,
/// and whether it was named by a `static` import.
#[derive(Debug)]
pub struct Package {
    /// The segments, outermost first.
    pub segments: Vec<String>,
    /// Whether a `static` import named it.
    pub is_static: bool,
}

/// A `Package` as values.
pub struct PackageView {
    pub segments: Seq<Seq<char>>,
    pub is_static: bool,
}

impl View for Package {
    type V = PackageView;

    open spec fn view(&self) -> PackageView {
        PackageView { segments: self.segments@.map_values(|s: String| s@), is_static: self.is_static }
    }
}

/// The views of a sequence of packages.
pub open spec fn package_views(ps: Seq<Package>) -> Seq<PackageView> {
    ps.map_values(|p: Package| p@)
}

/// The package a dotted name denotes: no segment for the empty name, else
/// the pieces between the dots.
pub open spec fn package_named(name: Seq<char>, is_static: bool) -> PackageView {
    PackageView {
        segments: if name.len() == 0 {
            Seq::empty()
        } else {
            split(name, '.')
        },
        is_static: is_static,
    }
}

/// Whether two sequences of texts are equal, element by element.
fn same_segments(a: &Vec<String>, b: &Vec<String>) -> (r: bool)
    ensures
        r == (a@.map_values(|s: String| s@) == b@.map_values(|s: String| s@)),
{
    if a.len() != b.len() {
        assert(a@.map_values(|s: String| s@).len() != b@.map_values(|s: String| s@).len());
        return false;
    }
    let mut i: usize = 0;
    while i < a.len()
        invariant
            a@.len() == b@.len(),
            i <= a@.len(),
            forall|k: int| 0 <= k < i ==> a@[k]@ == b@[k]@,
        decreases a@.len() - i,
    {
        if !same_text(a[i].as_str(), b[i].as_str()) {
            assert(a@.map_values(|s: String| s@)[i as int] != b@.map_values(|s: String| s@)[i as int]);
            return false;
        }
        i = i + 1;
    }
    assert(a@.map_values(|s: String| s@) =~= b@.map_values(|s: String| s@));
    true
}

impl Clone for Package {
    fn clone(&self) -> (p: Package)
        ensures
            p@ == self@,
    {
        let mut segments: Vec<String> = Vec::new();
        let mut i: usize = 0;
        while i < self.segments.len()
            invariant
                i <= self.segments@.len(),
                segments@.map_values(|s: String| s@) == self.segments@.map_values(|s: String| s@).take(i as int),
            decreases self.segments@.len() - i,
        {
            let ghost before = segments@;
            let c = self.segments[i].clone();
            assert(c@ == self.segments@[i as int]@);
            segments.push(c);
            assert(segments@.map_values(|s: String| s@) =~= before.map_values(|s: String| s@).push(c@));
            assert(self.segments@.map_values(|s: String| s@).take(i + 1) =~= self.segments@.map_values(
                |s: String| s@,
            ).take(i as int).push(self.segments@[i as int]@));
            i = i + 1;
        }
        assert(self.segments@.map_values(|s: String| s@).take(i as int) == self.segments@.map_values(|s: String| s@));
        Package { segments, is_static: self.is_static }
    }
}

impl Package {
    /// The package with no segment.
    pub fn empty() -> (p: Package)
        ensures
            p@ == (PackageView { segments: Seq::empty(), is_static: false }),
    {
        let p = Package { segments: Vec::new(), is_static: false };
        assert(p@.segments =~= Seq::<Seq<char>>::empty());
        p
    }

    /// The package a dotted name denotes (see `package_named`).
    pub fn from_string(name: &str, is_static: bool) -> (p: Package)
        ensures
            p@ == package_named(name@, is_static),
    {
        if name.as_bytes().len() == 0 {
            proof {
                if name@.len() != 0 {
                    reveal_with_fuel(vstd::utf8::encode_utf8, 1);
                    assert(vstd::utf8::encode_utf8(name@).len() > 0);
                }
            }
            Package::empty_with(is_static)
        } else {
            proof {
                if name@.len() == 0 {
                    assert(vstd::utf8::encode_utf8(name@) == Seq::<u8>::empty());
                }
            }
            Package { segments: split_pieces(name, '.'), is_static }
        }
    }

    /// The package with no segment and the given `static` flag.
    fn empty_with(is_static: bool) -> (p: Package)
        ensures
            p@ == (PackageView { segments: Seq::empty(), is_static }),
    {
        let p = Package { segments: Vec::new(), is_static };
        assert(p@.segments =~= Seq::<Seq<char>>::empty());
        p
    }

    /// Drops the innermost segment, where there is one.
    pub fn pop(&mut self)
        ensures
            final(self)@ == (PackageView {
                segments: if old(self)@.segments.len() == 0 {
                    old(self)@.segments
                } else {
                    old(self)@.segments.drop_last()
                },
                is_static: old(self)@.is_static,
            }),
    {
        let ghost before = self.segments@;
        if self.segments.len() > 0 {
            self.segments.pop();
            assert(self.segments@.map_values(|s: String| s@) =~= before.map_values(|s: String| s@).drop_last());
        }
    }

    /// Appends an innermost segment.
    pub fn push(&mut self, segment: &str)
        ensures
            final(self)@ == (PackageView {
                segments: old(self)@.segments.push(segment@),
                is_static: old(self)@.is_static,
            }),
    {
        let ghost before = self.segments@;
        let s = segment.to_owned();
        self.segments.push(s);
        assert(self.segments@.map_values(|s: String| s@) =~= before.map_values(|s: String| s@).push(segment@));
    }

    /// This package with `segment` appended.
    pub fn join(&self, segment: &str) -> (p: Package)
        ensures
            p@ == (PackageView { segments: self@.segments.push(segment@), is_static: self@.is_static }),
    {
        let mut p = self.clone();
        p.push(segment);
        p
    }

    /// Whether two packages are the same.
    pub fn same(&self, other: &Package) -> (r: bool)
        ensures
            r == (self@ == other@),
    {
        self.is_static == other.is_static && same_segments(&self.segments, &other.segments)
    }
}

/// Whether `p` occurs in `ps`.
pub fn contains_package(ps: &Vec<Package>, p: &Package) -> (r: bool)
    ensures
        r == package_views(ps@).contains(p@),
{
    let mut i: usize = 0;
    while i < ps.len()
        invariant
            i <= ps@.len(),
            forall|k: int| 0 <= k < i ==> ps@[k]@ != p@,
        decreases ps@.len() - i,
    {
        if ps[i].same(p) {
            assert(package_views(ps@)[i as int] == p@);
            return true;
        }
        i = i + 1;
    }
    assert forall|k: int| 0 <= k < package_views(ps@).len() implies package_views(ps@)[k] != p@ by {
        assert(package_views(ps@)[k] == ps@[k]@);
    }
    false
}

} // verus!
