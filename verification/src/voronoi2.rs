use vstd::prelude::*;

verus! {

/// The connectivity of a Voronoi diagram whose cells are polygons.
///
/// The cell of site `i` has the faces (polygon edges) `site2idx[i]..site2idx[i + 1]`.
/// Face `idx` starts at Voronoi vertex `idx2vtxv[idx]` and borders the cell of site
/// `idx2site[idx]`, or the boundary of the domain where that is `usize::MAX`.
pub struct VoronoiInfo {
    pub site2idx: Vec<usize>,
    pub idx2vtxv: Vec<usize>,
    pub idx2site: Vec<usize>,
}

impl VoronoiInfo {
    /// The number of sites.
    pub open spec fn num_site(&self) -> int {
        self.site2idx.len() - 1
    }

    /// The index of the first face of the cell of site `i`.
    pub open spec fn face_begin(&self, i: int) -> int {
        self.site2idx[i] as int
    }

    /// The number of faces of the cell of site `i`.
    pub open spec fn num_face(&self, i: int) -> int {
        self.site2idx[i + 1] - self.site2idx[i]
    }

    /// The site across face `f` of the cell of site `i` (`usize::MAX` on the domain boundary).
    pub open spec fn neighbor(&self, i: int, f: int) -> usize {
        self.idx2site[self.face_begin(i) + f]
    }

    /// There is at least one offset and the offsets are sorted.
    pub open spec fn offsets_sorted(&self) -> bool {
        &&& self.site2idx.len() >= 1
        &&& forall|i: int, j: int|
            0 <= i <= j < self.site2idx.len() ==> #[trigger] self.site2idx[i] <= #[trigger] self.site2idx[j]
    }

    /// The faces stay inside `idx2site`, and every face borders a site of the diagram or
    /// the boundary.
    pub open spec fn wf_faces(&self) -> bool {
        &&& self.offsets_sorted()
        &&& self.site2idx[self.num_site()] <= self.idx2site.len()
        &&& forall|k: int|
            0 <= k < self.site2idx[self.num_site()] ==> #[trigger] self.idx2site[k] == usize::MAX
                || self.idx2site[k] < self.num_site()
    }

    /// The faces stay inside `idx2vtxv`.
    pub open spec fn wf_vertices(&self) -> bool {
        &&& self.offsets_sorted()
        &&& self.site2idx[self.num_site()] <= self.idx2vtxv.len()
    }

    /// Both the neighbours and the vertices of all faces can be read.
    pub open spec fn wf(&self) -> bool {
        &&& self.wf_faces()
        &&& self.wf_vertices()
    }

    /// Every face is seen from both sides: where site `i` borders site `j`, site `j`
    /// borders site `i`.
    pub open spec fn faces_symmetric(&self) -> bool {
        forall|i: int, f: int|
            0 <= i < self.num_site() && 0 <= f < self.num_face(i) && #[trigger] self.neighbor(i, f)
                != usize::MAX ==> exists|g: int|
                0 <= g < self.num_face(self.neighbor(i, f) as int) && #[trigger] self.neighbor(
                    self.neighbor(i, f) as int,
                    g,
                ) == i
    }

    /// Every face index of every cell lies inside the face arrays that are long enough.
    pub proof fn lemma_face_in_range(&self, i: int, f: int)
        requires
            self.offsets_sorted(),
            0 <= i < self.num_site(),
            0 <= f < self.num_face(i),
        ensures
            0 <= self.face_begin(i) + f < self.site2idx[self.num_site()],
            self.wf_vertices() ==> self.face_begin(i) + f < self.idx2vtxv.len(),
            self.wf_faces() ==> self.face_begin(i) + f < self.idx2site.len(),
            self.wf_faces() ==> (self.neighbor(i, f) == usize::MAX || self.neighbor(i, f)
                < self.num_site()),
    {
        assert(self.site2idx[i + 1] <= self.site2idx[self.num_site()]);
        assert(0 <= self.site2idx[i]);
    }
}

} // verus!
