//! Row types of the tag index: points, tags, and the joins that connect them.

use vstd::prelude::*;

verus! {

/// Mathematical value of a [`Point`]: every text field as a sequence of
/// characters, the id as an unbounded integer.
pub ghost struct PointV {
    pub id: int,
    pub name: Seq<char>,
    pub path: Option<Seq<char>>,
    pub hash: Seq<char>,
    pub dir: bool,
}

/// A taggable entity: a file or directory of the backing filesystem that has
/// been registered into the index.  `path` is `None` when the point is known
/// only abstractly or its backing path has disappeared.
pub struct Point {
    pub id: i32,
    pub name: String,
    pub path: Option<String>,
    pub hash: String,
    pub dir: bool,
}

impl View for Point {
    type V = PointV;

    open spec fn view(&self) -> PointV {
        PointV {
            id: self.id as int,
            name: self.name@,
            path: match self.path {
                Some(p) => Some(p@),
                None => None,
            },
            hash: self.hash@,
            dir: self.dir,
        }
    }
}

impl Point {
    /// A field-for-field copy.
    pub fn duplicate(&self) -> (r: Point)
        ensures
            r@ == self@,
    {
        Point {
            id: self.id,
            name: self.name.clone(),
            path: match &self.path {
                Some(p) => Some(p.clone()),
                None => None,
            },
            hash: self.hash.clone(),
            dir: self.dir,
        }
    }
}

/// Payload of a freshly created point row.
pub struct NewPoint {
    pub id: i32,
    pub name: String,
    pub path: Option<String>,
    pub hash: String,
    pub dir: bool,
}

impl View for NewPoint {
    type V = PointV;

    open spec fn view(&self) -> PointV {
        PointV {
            id: self.id as int,
            name: self.name@,
            path: match self.path {
                Some(p) => Some(p@),
                None => None,
            },
            hash: self.hash@,
            dir: self.dir,
        }
    }
}

/// Mathematical value of a [`Tag`].
pub ghost struct TagV {
    pub id: int,
    pub name: Seq<char>,
    pub value: Option<Seq<char>>,
    pub sort_value: Option<int>,
}

/// A typed annotation.  `sort_value` enables numeric comparisons independent
/// of lexical order.
pub struct Tag {
    pub id: i32,
    pub name: String,
    pub value: Option<String>,
    pub sort_value: Option<i64>,
}

impl View for Tag {
    type V = TagV;

    open spec fn view(&self) -> TagV {
        TagV {
            id: self.id as int,
            name: self.name@,
            value: match self.value {
                Some(v) => Some(v@),
                None => None,
            },
            sort_value: match self.sort_value {
                Some(s) => Some(s as int),
                None => None,
            },
        }
    }
}

impl Tag {
    /// A field-for-field copy.
    pub fn duplicate(&self) -> (r: Tag)
        ensures
            r@ == self@,
    {
        Tag {
            id: self.id,
            name: self.name.clone(),
            value: match &self.value {
                Some(v) => Some(v.clone()),
                None => None,
            },
            sort_value: self.sort_value,
        }
    }
}

/// Payload of a freshly created tag row.
pub struct NewTag {
    pub id: i32,
    pub name: String,
    pub value: Option<String>,
    pub sort_value: Option<i64>,
}

impl View for NewTag {
    type V = TagV;

    open spec fn view(&self) -> TagV {
        TagV {
            id: self.id as int,
            name: self.name@,
            value: match self.value {
                Some(v) => Some(v@),
                None => None,
            },
            sort_value: match self.sort_value {
                Some(s) => Some(s as int),
                None => None,
            },
        }
    }
}

/// Mathematical value of a [`Join`].
pub ghost struct JoinV {
    pub id: int,
    pub tag_id: int,
    pub point_id: int,
}

/// The many-to-many link between points and tags: "point has tag".
pub struct Join {
    pub id: i32,
    pub tag_id: i32,
    pub point_id: i32,
}

impl View for Join {
    type V = JoinV;

    open spec fn view(&self) -> JoinV {
        JoinV { id: self.id as int, tag_id: self.tag_id as int, point_id: self.point_id as int }
    }
}

impl Join {
    /// A field-for-field copy.
    pub fn duplicate(&self) -> (r: Join)
        ensures
            r@ == self@,
    {
        Join { id: self.id, tag_id: self.tag_id, point_id: self.point_id }
    }
}

/// Payload of a freshly created join row.
pub struct NewJoin {
    pub id: i32,
    pub tag_id: i32,
    pub point_id: i32,
}

impl View for NewJoin {
    type V = JoinV;

    open spec fn view(&self) -> JoinV {
        JoinV { id: self.id as int, tag_id: self.tag_id as int, point_id: self.point_id as int }
    }
}

} // verus!
