//! Wavefront OBJ: what a line of a file says, and the mesh that the lines
//! of a file make.

use super::text::{fields, number, parse_number, split_fields, split_words, texts, words};
use std::collections::HashMap;
use vstd::prelude::*;

verus! {

broadcast use vstd::std_specs::hash::group_hash_axioms;

/// Three of a kind: a point or a direction in space, or the three indices
/// of a corner.
#[derive(Debug, Hash, PartialEq)]
pub struct Vertex3<T: Copy> {
    pub x: T,
    pub y: T,
    pub z: T,
}

/// Two of a kind: a place on a texture.
#[derive(Debug, Hash, PartialEq)]
pub struct Vertex2<T: Copy> {
    pub u: T,
    pub v: T,
}

impl<T: Copy> Clone for Vertex3<T> {
    fn clone(&self) -> (copy: Self)
        ensures
            copy == *self,
    {
        *self
    }
}

impl<T: Copy> Copy for Vertex3<T> {

}

impl<T: Copy> Clone for Vertex2<T> {
    fn clone(&self) -> (copy: Self)
        ensures
            copy == *self,
    {
        *self
    }
}

impl<T: Copy> Copy for Vertex2<T> {

}

impl<T: Copy> Vertex3<T> {
    pub fn new(x: T, y: T, z: T) -> (vertex: Vertex3<T>)
        ensures
            vertex == (Vertex3 { x: x, y: y, z: z }),
    {
        Vertex3 { x: x, y: y, z: z }
    }
}

impl<T: Copy> Vertex2<T> {
    pub fn new(u: T, v: T) -> (vertex: Vertex2<T>)
        ensures
            vertex == (Vertex2 { u: u, v: v }),
    {
        Vertex2 { u: u, v: v }
    }
}

/// A triangle. Each corner names, counted from 0, a position (`x`), a
/// texture coordinate (`y`) and a normal (`z`).
pub struct Face {
    pub points: [Vertex3<u32>; 3],
}

impl Face {
    pub fn new(first: Vertex3<u32>, second: Vertex3<u32>, third: Vertex3<u32>) -> (face: Face)
        ensures
            face.points@ == seq![first, second, third],
    {
        let face = Face { points: [first, second, third] };
        assert(face.points@ =~= seq![first, second, third]);
        face
    }
}

/// A vertex as it is handed to the GPU: a position, a texture coordinate
/// and a normal.
pub struct Vertex<T: Copy> {
    pub pos: [T; 3],
    pub uv: [T; 2],
    pub norm: [T; 3],
}

/// A mesh ready for upload: its vertices, none of them twice, and for each
/// corner of each face the place of its vertex among them.
pub struct Wavefront<T: Copy> {
    verts: Vec<Vertex<T>>,
    faces: Vec<u32>,
}

/// The byte for the letter `v`.
pub const LETTER_V: u8 = 118;

/// The byte for the letter `t`.
pub const LETTER_T: u8 = 116;

/// The byte for the letter `n`.
pub const LETTER_N: u8 = 110;

/// The byte for the letter `f`.
pub const LETTER_F: u8 = 102;

/// What the first word of a line announces.
#[derive(Clone, Copy, Debug, PartialEq, Eq, Structural)]
pub enum Keyword {
    /// `v`: a position.
    Position,
    /// `vt`: a texture coordinate.
    TexCoord,
    /// `vn`: a normal.
    Normal,
    /// `f`: a face.
    Face,
    /// Anything else; such a line is passed over.
    Other,
}

/// What one line of a file says.
pub enum Statement {
    /// A position, with the words that write its coordinates.
    Position(Vec<Vec<u8>>),
    /// A texture coordinate, with the words that write it.
    TexCoord(Vec<Vec<u8>>),
    /// A normal, with the words that write its coordinates.
    Normal(Vec<Vec<u8>>),
    /// A face.
    Face(Face),
    /// Nothing that a mesh is made of.
    Other,
}

/// Why a line says nothing.
#[derive(Clone, Copy, Debug, PartialEq, Eq, Structural)]
pub enum LineError {
    /// The line holds no word.
    Empty,
    /// The line opens a face and does not write three corners.
    Face,
}

/// The index that a field of a corner names. The text counts from 1, an
/// index from 0, and a field that writes no number stands for the first
/// element. A written 0 names nothing: it comes out as the largest index.
pub open spec fn index(field: Seq<u8>) -> u32 {
    let written = match number(field) {
        Some(n) => n,
        None => 1,
    };
    if written == 0 {
        u32::MAX
    } else {
        (written - 1) as u32
    }
}

/// The corner that `word` writes: its first three fields, as indices. A
/// word with fewer fields writes none.
pub open spec fn corner(word: Seq<u8>) -> Option<Vertex3<u32>> {
    let parts = fields(word);
    if parts.len() >= 3 {
        Some(Vertex3 { x: index(parts[0]), y: index(parts[1]), z: index(parts[2]) })
    } else {
        None
    }
}

/// The three corners of the face that `args` write, the words of a face
/// line behind its keyword. It takes three words that each write a corner;
/// words behind the third are not looked at.
pub open spec fn face_corners(args: Seq<Seq<u8>>) -> Option<Seq<Vertex3<u32>>> {
    if args.len() >= 3 && corner(args[0]) is Some && corner(args[1]) is Some && corner(
        args[2],
    ) is Some {
        Some(seq![corner(args[0])->0, corner(args[1])->0, corner(args[2])->0])
    } else {
        None
    }
}

/// Whether `read` is what the line `text` says: its first word is the
/// keyword, the words behind it are what the keyword is about.
pub open spec fn says(text: Seq<u8>, read: Result<Statement, LineError>) -> bool {
    let all = words(text);
    if all.len() == 0 {
        read == Err::<Statement, LineError>(LineError::Empty)
    } else {
        let args = all.skip(1);
        match keyword_of(all[0]) {
            Keyword::Position => read matches Ok(Statement::Position(found)) && texts(found@)
                == args,
            Keyword::TexCoord => read matches Ok(Statement::TexCoord(found)) && texts(found@)
                == args,
            Keyword::Normal => read matches Ok(Statement::Normal(found)) && texts(found@) == args,
            Keyword::Face => match face_corners(args) {
                Some(three) => read matches Ok(Statement::Face(face)) && face.points@ == three,
                None => read == Err::<Statement, LineError>(LineError::Face),
            },
            Keyword::Other => read matches Ok(Statement::Other),
        }
    }
}

/// The keyword that `word` is.
pub open spec fn keyword_of(word: Seq<u8>) -> Keyword {
    if word == seq![LETTER_V] {
        Keyword::Position
    } else if word == seq![LETTER_V, LETTER_T] {
        Keyword::TexCoord
    } else if word == seq![LETTER_V, LETTER_N] {
        Keyword::Normal
    } else if word == seq![LETTER_F] {
        Keyword::Face
    } else {
        Keyword::Other
    }
}

/// Tells which keyword a word is.
pub fn keyword(word: &[u8]) -> (kind: Keyword)
    ensures
        kind == keyword_of(word@),
{
    if word.len() == 1 && word[0] == LETTER_V {
        assert(word@ =~= seq![LETTER_V]);
        Keyword::Position
    } else if word.len() == 2 && word[0] == LETTER_V && word[1] == LETTER_T {
        assert(word@ =~= seq![LETTER_V, LETTER_T]);
        Keyword::TexCoord
    } else if word.len() == 2 && word[0] == LETTER_V && word[1] == LETTER_N {
        assert(word@ =~= seq![LETTER_V, LETTER_N]);
        Keyword::Normal
    } else if word.len() == 1 && word[0] == LETTER_F {
        assert(word@ =~= seq![LETTER_F]);
        Keyword::Face
    } else {
        proof {
            assert(seq![LETTER_V][0] == LETTER_V && seq![LETTER_F][0] == LETTER_F);
            assert(seq![LETTER_V, LETTER_T][1] == LETTER_T);
            assert(seq![LETTER_V, LETTER_N][1] == LETTER_N);
        }
        Keyword::Other
    }
}

/// Reads one field of a corner as an index.
pub fn parse_index(field: &[u8]) -> (at: u32)
    ensures
        at == index(field@),
{
    let written: u32 = match parse_number(field) {
        Some(n) => n,
        None => 1,
    };
    written.wrapping_sub(1)
}

/// Reads one corner of a face: `position/texture/normal`.
pub fn parse_corner(word: &[u8]) -> (parsed: Option<Vertex3<u32>>)
    ensures
        parsed == corner(word@),
{
    let parts = split_fields(word);
    if parts.len() < 3 {
        return None;
    }
    proof {
        assert(texts(parts@)[0] == parts@[0]@);
        assert(texts(parts@)[1] == parts@[1]@);
        assert(texts(parts@)[2] == parts@[2]@);
    }
    let x = parse_index(parts[0].as_slice());
    let y = parse_index(parts[1].as_slice());
    let z = parse_index(parts[2].as_slice());
    Some(Vertex3::new(x, y, z))
}

/// Reads a face from the words that follow its keyword.
pub fn parse_face(args: &[Vec<u8>]) -> (parsed: Option<Face>)
    ensures
        match parsed {
            Some(face) => face_corners(texts(args@)) == Some(face.points@),
            None => face_corners(texts(args@)) is None,
        },
{
    if args.len() < 3 {
        return None;
    }
    proof {
        assert(texts(args@)[0] == args@[0]@);
        assert(texts(args@)[1] == args@[1]@);
        assert(texts(args@)[2] == args@[2]@);
    }
    let first = match parse_corner(args[0].as_slice()) {
        Some(corner) => corner,
        None => {
            return None;
        },
    };
    let second = match parse_corner(args[1].as_slice()) {
        Some(corner) => corner,
        None => {
            return None;
        },
    };
    let third = match parse_corner(args[2].as_slice()) {
        Some(corner) => corner,
        None => {
            return None;
        },
    };
    Some(Face::new(first, second, third))
}

/// Reads one line of a file.
pub fn parse_line(line: &[u8]) -> (read: Result<Statement, LineError>)
    ensures
        says(line@, read),
{
    let mut found = split_words(line);
    if found.len() == 0 {
        return Err(LineError::Empty);
    }
    let ghost all = texts(found@);
    let kind = keyword(found[0].as_slice());
    proof {
        assert(all[0] == found@[0]@);
    }
    found.remove(0);
    proof {
        assert(texts(found@) =~= all.skip(1));
    }
    match kind {
        Keyword::Position => Ok(Statement::Position(found)),
        Keyword::TexCoord => Ok(Statement::TexCoord(found)),
        Keyword::Normal => Ok(Statement::Normal(found)),
        Keyword::Face => match parse_face(found.as_slice()) {
            Some(face) => Ok(Statement::Face(face)),
            None => Err(LineError::Face),
        },
        Keyword::Other => Ok(Statement::Other),
    }
}

/// All corners of `faces`, face by face.
pub open spec fn corners(faces: Seq<Face>) -> Seq<Vertex3<u32>>
    decreases faces.len(),
{
    if faces.len() == 0 {
        Seq::empty()
    } else {
        corners(faces.drop_last()) + faces.last().points@
    }
}

/// `items` without what repeats: each item stands where it first occurs.
pub open spec fn distinct<A>(items: Seq<A>) -> Seq<A>
    decreases items.len(),
{
    if items.len() == 0 {
        Seq::empty()
    } else {
        let before = distinct(items.drop_last());
        if before.contains(items.last()) {
            before
        } else {
            before.push(items.last())
        }
    }
}

/// `items`, or `fallback` alone where there are none.
pub open spec fn or_one<A>(items: Seq<A>, fallback: A) -> Seq<A> {
    if items.len() == 0 {
        seq![fallback]
    } else {
        items
    }
}

/// Whether each index of `corner` names one of that many elements.
pub open spec fn in_reach(corner: Vertex3<u32>, positions: nat, uvs: nat, normals: nat) -> bool {
    corner.x < positions && corner.y < uvs && corner.z < normals
}

/// Whether `vertex` is made of just these three.
pub open spec fn joins<T: Copy>(
    vertex: Vertex<T>,
    pos: Vertex3<T>,
    uv: Vertex2<T>,
    norm: Vertex3<T>,
) -> bool {
    &&& vertex.pos@ == seq![pos.x, pos.y, pos.z]
    &&& vertex.uv@ == seq![uv.u, uv.v]
    &&& vertex.norm@ == seq![norm.x, norm.y, norm.z]
}

/// Whether a mesh can be made of the corners `all`: each names elements
/// that exist, and the distinct ones can be counted in 32 bits.
pub open spec fn fits(all: Seq<Vertex3<u32>>, positions: nat, uvs: nat, normals: nat) -> bool {
    &&& forall|k: int| 0 <= k < all.len() ==> in_reach(#[trigger] all[k], positions, uvs, normals)
    &&& distinct(all).len() <= 0x1_0000_0000
}

spec fn pack(corner: Vertex3<u32>) -> u128 {
    (corner.x * 0x1_0000_0000_0000_0000 + corner.y * 0x1_0000_0000 + corner.z) as u128
}

fn pack_corner(corner: &Vertex3<u32>) -> (key: u128)
    ensures
        key == pack(*corner),
{
    let x: u128 = corner.x as u128;
    let y: u128 = corner.y as u128;
    let z: u128 = corner.z as u128;
    x * 0x1_0000_0000_0000_0000 + y * 0x1_0000_0000 + z
}

proof fn lemma_pack_tells_apart(a: Vertex3<u32>, b: Vertex3<u32>)
    ensures
        pack(a) == pack(b) ==> a == b,
{
}

/// Each face gives three corners: those of face `f` stand at `3 * f` and
/// the two places behind it.
pub proof fn lemma_corners_by_face(faces: Seq<Face>)
    ensures
        corners(faces).len() == 3 * faces.len(),
        forall|f: int, p: int|
            0 <= f < faces.len() && 0 <= p < 3 ==> corners(faces)[3 * f + p]
                == #[trigger] faces[f].points@[p],
    decreases faces.len(),
{
    if faces.len() > 0 {
        lemma_corners_by_face(faces.drop_last());
        assert forall|f: int, p: int| 0 <= f < faces.len() && 0 <= p < 3 implies corners(faces)[3
            * f + p] == #[trigger] faces[f].points@[p] by {
            if f < faces.len() - 1 {
                assert(faces.drop_last()[f] == faces[f]);
            }
        }
    }
}

/// Nothing is lost and nothing added: `distinct` holds just what `items`
/// holds.
pub proof fn lemma_distinct_holds_the_same<A>(items: Seq<A>, item: A)
    ensures
        distinct(items).contains(item) <==> items.contains(item),
    decreases items.len(),
{
    if items.len() > 0 {
        let before = items.drop_last();
        lemma_distinct_holds_the_same(before, item);
        if items.contains(item) {
            let at = choose|at: int| 0 <= at < items.len() && items[at] == item;
            if at < before.len() {
                assert(before[at] == item);
            }
        }
        if before.contains(item) {
            let at = choose|at: int| 0 <= at < before.len() && before[at] == item;
            assert(items[at] == item);
        }
        if !distinct(before).contains(items.last()) {
            let longer = distinct(before).push(items.last());
            assert(longer[distinct(before).len() as int] == items.last());
            if distinct(before).contains(item) {
                let at = choose|at: int| 0 <= at < distinct(before).len() && distinct(before)[at] == item;
                assert(longer[at] == item);
            }
        }
        assert(items[items.len() - 1] == items.last());
    }
}

/// Nothing stands twice in `distinct`.
pub proof fn lemma_distinct_has_no_duplicates<A>(items: Seq<A>)
    ensures
        distinct(items).no_duplicates(),
    decreases items.len(),
{
    if items.len() > 0 {
        lemma_distinct_has_no_duplicates(items.drop_last());
    }
}

/// What is distinct in the first `n` of `items` opens what is distinct in
/// all of them.
pub proof fn lemma_distinct_grows<A>(items: Seq<A>, n: int)
    requires
        0 <= n <= items.len(),
    ensures
        distinct(items.take(n)).is_prefix_of(distinct(items)),
    decreases items.len(),
{
    if n == items.len() {
        assert(items.take(n) =~= items);
    } else {
        lemma_distinct_grows(items.drop_last(), n);
        assert(items.drop_last().take(n) =~= items.take(n));
    }
}

impl<T: Copy> Wavefront<T> {
    pub closed spec fn spec_vertex(&self) -> Seq<Vertex<T>> {
        self.verts@
    }

    pub closed spec fn spec_faces(&self) -> Seq<u32> {
        self.faces@
    }

    /// Every index of a face names a vertex of the mesh.
    pub open spec fn well_formed(&self) -> bool {
        forall|k: int|
            0 <= k < self.spec_faces().len() ==> (#[trigger] self.spec_faces()[k])
                < self.spec_vertex().len()
    }

    /// Whether this is the mesh of the corners `all` over the given
    /// elements: one vertex for each distinct corner, in the order in which
    /// the corners first occur, and for each corner the place of its vertex.
    pub open spec fn indexes(
        &self,
        all: Seq<Vertex3<u32>>,
        positions: Seq<Vertex3<T>>,
        uvs: Seq<Vertex2<T>>,
        normals: Seq<Vertex3<T>>,
    ) -> bool {
        let uniq = distinct(all);
        &&& self.spec_vertex().len() == uniq.len()
        &&& forall|j: int|
            0 <= j < uniq.len() ==> joins(
                #[trigger] self.spec_vertex()[j],
                positions[uniq[j].x as int],
                uvs[uniq[j].y as int],
                normals[uniq[j].z as int],
            )
        &&& self.spec_faces().len() == all.len()
        &&& forall|k: int|
            0 <= k < all.len() ==> (#[trigger] self.spec_faces()[k]) < uniq.len()
                && uniq[self.spec_faces()[k] as int] == all[k]
    }

    pub fn vertex(&self) -> (verts: &Vec<Vertex<T>>)
        ensures
            verts@ == self.spec_vertex(),
    {
        &self.verts
    }

    pub fn faces(&self) -> (faces: &Vec<u32>)
        ensures
            faces@ == self.spec_faces(),
    {
        &self.faces
    }

    /// Makes the mesh of what a file held: its positions, texture
    /// coordinates, normals and faces, each in the order of the file. A kind
    /// of element of which the file held none is taken to have one, made of
    /// `zero`. There is no mesh where a corner names an element that does
    /// not exist, or where the vertices cannot be counted in 32 bits.
    pub fn assemble(
        verts: Vec<Vertex3<T>>,
        uvs: Vec<Vertex2<T>>,
        normals: Vec<Vertex3<T>>,
        faces: &[Face],
        zero: T,
    ) -> (built: Option<Wavefront<T>>)
        ensures
            built is Some <==> fits(
                corners(faces@),
                or_one(verts@, Vertex3 { x: zero, y: zero, z: zero }).len(),
                or_one(uvs@, Vertex2 { u: zero, v: zero }).len(),
                or_one(normals@, Vertex3 { x: zero, y: zero, z: zero }).len(),
            ),
            built matches Some(obj) ==> obj.well_formed() && obj.indexes(
                corners(faces@),
                or_one(verts@, Vertex3 { x: zero, y: zero, z: zero }),
                or_one(uvs@, Vertex2 { u: zero, v: zero }),
                or_one(normals@, Vertex3 { x: zero, y: zero, z: zero }),
            ),
    {
        let mut positions = verts;
        let mut coords = uvs;
        let mut directions = normals;
        if positions.len() == 0 {
            positions.push(Vertex3::new(zero, zero, zero));
        }
        if coords.len() == 0 {
            coords.push(Vertex2::new(zero, zero));
        }
        if directions.len() == 0 {
            directions.push(Vertex3::new(zero, zero, zero));
        }
        let ghost all = corners(faces@);
        proof {
            lemma_corners_by_face(faces@);
            assert(positions@ =~= or_one(verts@, Vertex3 { x: zero, y: zero, z: zero }));
            assert(coords@ =~= or_one(uvs@, Vertex2 { u: zero, v: zero }));
            assert(directions@ =~= or_one(normals@, Vertex3 { x: zero, y: zero, z: zero }));
            assert(all.take(0) =~= Seq::<Vertex3<u32>>::empty());
        }
        let mut obj = Wavefront { verts: Vec::new(), faces: Vec::new() };
        let mut map: HashMap<u128, u32> = HashMap::new();
        let mut f: usize = 0;
        while f < faces.len()
            invariant
                f <= faces.len(),
                all == corners(faces@),
                all.len() == 3 * faces.len(),
                positions@ == or_one(verts@, Vertex3 { x: zero, y: zero, z: zero }),
                coords@ == or_one(uvs@, Vertex2 { u: zero, v: zero }),
                directions@ == or_one(normals@, Vertex3 { x: zero, y: zero, z: zero }),
                forall|g: int, q: int|
                    0 <= g < faces.len() && 0 <= q < 3 ==> all[3 * g + q]
                        == #[trigger] faces@[g].points@[q],
                Self::indexed(obj, map@, all.take(3 * f), positions@, coords@, directions@),
            decreases faces.len() - f,
        {
            let mut p: usize = 0;
            while p < 3
                invariant
                    p <= 3,
                    f < faces.len(),
                    all == corners(faces@),
                    all.len() == 3 * faces.len(),
                    positions@ == or_one(verts@, Vertex3 { x: zero, y: zero, z: zero }),
                    coords@ == or_one(uvs@, Vertex2 { u: zero, v: zero }),
                    directions@ == or_one(normals@, Vertex3 { x: zero, y: zero, z: zero }),
                    forall|g: int, q: int|
                        0 <= g < faces.len() && 0 <= q < 3 ==> all[3 * g + q]
                            == #[trigger] faces@[g].points@[q],
                    Self::indexed(obj, map@, all.take(3 * f + p), positions@, coords@, directions@),
                decreases 3 - p,
            {
                let point = faces[f].points[p];
                let key = pack_corner(&point);
                let ghost seen = all.take(3 * f + p);
                let ghost next = all.take(3 * f + p + 1);
                let ghost uniq = distinct(seen);
                let ghost before = obj;
                proof {
                    assert(faces@[f as int].points@[p as int] == point);
                    assert(all[3 * f + p] == point);
                    assert(next.drop_last() =~= seen);
                    assert(next.last() == point);
                    assert forall|k: int| 0 <= k < seen.len() implies seen[k] == next[k] && in_reach(
                        #[trigger] next[k],
                        positions@.len(),
                        coords@.len(),
                        directions@.len(),
                    ) by {
                        assert(in_reach(
                            seen[k],
                            positions@.len(),
                            coords@.len(),
                            directions@.len(),
                        ));
                    }
                    lemma_distinct_grows(all, 3 * f + p + 1);
                    lemma_distinct_holds_the_same(seen, point);
                }
                match map.get(&key) {
                    Some(index) => {
                        obj.faces.push(*index);
                        proof {
                            assert(uniq.contains(point));
                            let at = choose|at: int| 0 <= at < uniq.len() && uniq[at] == point;
                            assert(map@[pack(uniq[at])] == at);
                            let first = choose|first: int|
                                0 <= first < seen.len() && seen[first] == point;
                            assert(in_reach(
                                seen[first],
                                positions@.len(),
                                coords@.len(),
                                directions@.len(),
                            ));
                            assert(distinct(next) == uniq);
                            assert forall|k: int| 0 <= k < next.len() implies (
                            #[trigger] obj.faces@[k]) < uniq.len() && uniq[obj.faces@[k] as int]
                                == next[k] by {
                                if k < seen.len() {
                                    assert(obj.faces@[k] == before.faces@[k]);
                                }
                            }
                        }
                    },
                    None => {
                        if point.x as usize >= positions.len() || point.y as usize
                            >= coords.len() || point.z as usize >= directions.len() {
                            return None;
                        }
                        proof {
                            if uniq.contains(point) {
                                let at = choose|at: int| 0 <= at < uniq.len() && uniq[at] == point;
                                assert(map@.contains_key(pack(uniq[at])));
                            }
                            assert(distinct(next) == uniq.push(point));
                        }
                        if obj.verts.len() > u32::MAX as usize {
                            return None;
                        }
                        let pos = positions[point.x as usize];
                        let uv = coords[point.y as usize];
                        let norms = directions[point.z as usize];
                        let vertex = Vertex {
                            pos: [pos.x, pos.y, pos.z],
                            uv: [uv.u, uv.v],
                            norm: [norms.x, norms.y, norms.z],
                        };
                        let flen = obj.verts.len() as u32;
                        let ghost old_map = map@;
                        obj.verts.push(vertex);
                        obj.faces.push(flen);
                        map.insert(key, flen);
                        proof {
                            let longer = uniq.push(point);
                            assert(vertex.pos@ =~= seq![pos.x, pos.y, pos.z]);
                            assert(vertex.uv@ =~= seq![uv.u, uv.v]);
                            assert(vertex.norm@ =~= seq![norms.x, norms.y, norms.z]);
                            assert forall|j: int| 0 <= j < longer.len() implies joins(
                                #[trigger] obj.verts@[j],
                                positions@[longer[j].x as int],
                                coords@[longer[j].y as int],
                                directions@[longer[j].z as int],
                            ) by {
                                if j < uniq.len() {
                                    assert(obj.verts@[j] == before.verts@[j]);
                                    assert(longer[j] == uniq[j]);
                                }
                            }
                            assert forall|k: int| 0 <= k < next.len() implies (
                            #[trigger] obj.faces@[k]) < longer.len() && longer[obj.faces@[k] as int]
                                == next[k] by {
                                if k < seen.len() {
                                    assert(obj.faces@[k] == before.faces@[k]);
                                    assert(longer[before.faces@[k] as int] == uniq[before.faces@[k] as int]);
                                }
                            }
                            assert forall|j: int| 0 <= j < longer.len() implies map@.contains_key(
                                pack(#[trigger] longer[j]),
                            ) && map@[pack(longer[j])] == j by {
                                if j < uniq.len() {
                                    assert(longer[j] == uniq[j]);
                                    lemma_pack_tells_apart(uniq[j], point);
                                    assert(old_map.contains_key(pack(uniq[j])));
                                }
                            }
                            assert forall|c: Vertex3<u32>|
                                map@.contains_key(#[trigger] pack(c)) implies longer.contains(c) by {
                                lemma_pack_tells_apart(c, point);
                                if c == point {
                                    assert(longer[uniq.len() as int] == point);
                                } else {
                                    assert(old_map.contains_key(pack(c)));
                                    let at = choose|at: int| 0 <= at < uniq.len() && uniq[at] == c;
                                    assert(longer[at] == c);
                                }
                            }
                        }
                    },
                }
                p += 1;
            }
            f += 1;
        }
        proof {
            assert(all.take(3 * f) =~= all);
        }
        Some(obj)
    }

    /// Where the making of a mesh stands after the corners `seen`: `obj`
    /// indexes them, and `map` leads from each distinct one to its vertex.
    spec fn indexed(
        obj: Wavefront<T>,
        map: Map<u128, u32>,
        seen: Seq<Vertex3<u32>>,
        positions: Seq<Vertex3<T>>,
        uvs: Seq<Vertex2<T>>,
        normals: Seq<Vertex3<T>>,
    ) -> bool {
        let uniq = distinct(seen);
        &&& obj.indexes(seen, positions, uvs, normals)
        &&& fits(seen, positions.len(), uvs.len(), normals.len())
        &&& forall|j: int|
            0 <= j < uniq.len() ==> map.contains_key(pack(#[trigger] uniq[j])) && map[pack(
                uniq[j],
            )] == j
        &&& forall|c: Vertex3<u32>| map.contains_key(#[trigger] pack(c)) ==> uniq.contains(c)
    }
}

} // verus!
