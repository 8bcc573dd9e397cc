//! The persisted record schema and its invariants.
//!
//! One `ImgIdx` row per indexed image. Embeddings are fixed-point:
//! each of the 768 components is a float scaled by one million and
//! clamped, so the verified distance arithmetic stays in integers.

use vstd::prelude::*;
use crate::text::spec_base_name;
use crate::text::base_name;

verus! {

/// Dimension of the embedding vectors the vision service returns.
pub const EMBED_DIM: usize = 768;

/// Bound on a fixed-point embedding component (scale: one million
/// per unit; service embeddings are normalised into `[-1, 1]`).
pub const EMBED_BOUND: i64 = 1_000_000;

/// Mathematical model of one row.
pub ghost struct RecordModel {
    pub id: Seq<char>,
    pub name: Seq<char>,
    pub path: Seq<char>,
    pub root: Seq<char>,
    pub sign: Seq<char>,
    pub thumbnail: Seq<char>,
    pub idxed: bool,
    pub desc: Option<Seq<char>>,
    pub vec: Option<Seq<i64>>,
}

/// A fixed-point embedding: right length, bounded components.
pub open spec fn valid_embedding(v: Seq<i64>) -> bool {
    &&& v.len() == EMBED_DIM
    &&& forall|i: int| 0 <= i < v.len() ==> -EMBED_BOUND <= #[trigger] v[i] <= EMBED_BOUND
}

impl RecordModel {
    /// A row is a placeholder without description and embedding, or
    /// an indexed row with both; embeddings are well-formed.
    pub open spec fn wf(self) -> bool {
        &&& self.idxed <==> self.desc is Some
        &&& self.idxed <==> self.vec is Some
        &&& self.vec is Some ==> valid_embedding(self.vec->Some_0)
    }
}

/// One row of the index table.
pub struct ImgIdx {
    pub id: String,
    pub name: String,
    pub path: String,
    pub root: String,
    pub sign: String,
    pub thumbnail: String,
    pub idxed: bool,
    pub desc: Option<String>,
    pub vec: Option<Vec<i64>>,
}

impl View for ImgIdx {
    type V = RecordModel;

    open spec fn view(&self) -> RecordModel {
        RecordModel {
            id: self.id@,
            name: self.name@,
            path: self.path@,
            root: self.root@,
            sign: self.sign@,
            thumbnail: self.thumbnail@,
            idxed: self.idxed,
            desc: match self.desc {
                Some(d) => Some(d@),
                None => None,
            },
            vec: match self.vec {
                Some(v) => Some(v@),
                None => None,
            },
        }
    }
}

impl ImgIdx {
    /// A fully indexed row: description and embedding present.
    pub fn new(
        id: String,
        path: String,
        root: String,
        sign: String,
        thumbnail: String,
        desc: String,
        vec: Vec<i64>,
    ) -> (r: ImgIdx)
        requires
            valid_embedding(vec@),
        ensures
            r@ == (RecordModel {
                id: id@,
                name: spec_base_name(path@),
                path: path@,
                root: root@,
                sign: sign@,
                thumbnail: thumbnail@,
                idxed: true,
                desc: Some(desc@),
                vec: Some(vec@),
            }),
            r@.wf(),
    {
        let name = base_name(path.as_str());
        ImgIdx {
            id,
            name,
            path,
            root,
            sign,
            thumbnail,
            idxed: true,
            desc: Some(desc),
            vec: Some(vec),
        }
    }

    /// A placeholder row: discovered, not yet (or unsuccessfully)
    /// indexed.
    pub fn new_empty(
        id: String,
        path: String,
        root: String,
        sign: String,
        thumbnail: String,
    ) -> (r: ImgIdx)
        ensures
            r@ == (RecordModel {
                id: id@,
                name: spec_base_name(path@),
                path: path@,
                root: root@,
                sign: sign@,
                thumbnail: thumbnail@,
                idxed: false,
                desc: None,
                vec: None,
            }),
            r@.wf(),
    {
        let name = base_name(path.as_str());
        ImgIdx {
            id,
            name,
            path,
            root,
            sign,
            thumbnail,
            idxed: false,
            desc: None,
            vec: None,
        }
    }
}

/// Mathematical model of one search or listing result.
pub ghost struct ResultModel {
    pub id: Seq<char>,
    pub name: Seq<char>,
    pub path: Seq<char>,
    pub root: Seq<char>,
    pub thumbnail: Seq<char>,
    pub idxed: bool,
    pub desc: Option<Seq<char>>,
    pub score: Option<u64>,
}

/// A row as handed back by search and listings. `score` is the
/// fixed-point squared distance to the query; absent in listings.
pub struct ImgSearchResult {
    pub id: String,
    pub name: String,
    pub path: String,
    pub root: String,
    pub thumbnail: String,
    pub idxed: bool,
    pub desc: Option<String>,
    pub score: Option<u64>,
}

impl View for ImgSearchResult {
    type V = ResultModel;

    open spec fn view(&self) -> ResultModel {
        ResultModel {
            id: self.id@,
            name: self.name@,
            path: self.path@,
            root: self.root@,
            thumbnail: self.thumbnail@,
            idxed: self.idxed,
            desc: match self.desc {
                Some(d) => Some(d@),
                None => None,
            },
            score: self.score,
        }
    }
}

/// The result row a given table row projects to.
pub open spec fn result_of(r: RecordModel, score: Option<u64>) -> ResultModel {
    ResultModel {
        id: r.id,
        name: r.name,
        path: r.path,
        root: r.root,
        thumbnail: r.thumbnail,
        idxed: r.idxed,
        desc: r.desc,
        score,
    }
}

/// The result row for a table row, with the given score attached.
pub fn to_result(row: &ImgIdx, score: Option<u64>) -> (r: ImgSearchResult)
    ensures
        r@ == result_of(row@, score),
{
    ImgSearchResult {
        id: row.id.clone(),
        name: row.name.clone(),
        path: row.path.clone(),
        root: row.root.clone(),
        thumbnail: row.thumbnail.clone(),
        idxed: row.idxed,
        desc: match &row.desc {
            Some(d) => Some(d.clone()),
            None => None,
        },
        score,
    }
}

/// Listing entry for the shell: identity and discovery time.
pub struct ImageInfo {
    pub id: String,
    pub name: String,
    pub path: String,
    pub created_at: u64,
}

/// A free-text query and the number of results wanted.
pub struct SearchModel {
    pub keyword: String,
    pub top: usize,
}

/// A rename request: the current path and the desired one.
pub struct RenameModel {
    pub old: String,
    pub new: String,
}

/// Mathematical model of one service reply.
pub ghost struct RespModel {
    pub vec: Seq<i64>,
    pub desc: Seq<char>,
    pub name: Option<Seq<char>>,
}

/// What the vision service reports for one thumbnail: a fixed-point
/// embedding, a description, and optionally a suggested base name.
pub struct ImageIndexResp {
    pub vec: Vec<i64>,
    pub desc: String,
    pub name: Option<String>,
}

impl View for ImageIndexResp {
    type V = RespModel;

    open spec fn view(&self) -> RespModel {
        RespModel {
            vec: self.vec@,
            desc: self.desc@,
            name: match self.name {
                Some(n) => Some(n@),
                None => None,
            },
        }
    }
}

} // verus!
