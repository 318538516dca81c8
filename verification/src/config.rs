//! The configuration records (projects, tags, preferences) and the pure
//! list logic of their lifecycle: id allocation, lookup by id, deletion,
//! and the active-only view. The key-value store that holds them belongs
//! to the callers.

use vstd::prelude::*;

verus! {

#[derive(Debug, Clone, PartialEq)]
pub struct Project {
    pub id: Option<i64>,
    pub name: String,
    pub description: Option<String>,
    pub color: String,
    pub active: bool,
    pub created_at: Option<String>,
    pub updated_at: Option<String>,
}

#[derive(Debug, Clone, PartialEq)]
pub struct Tag {
    pub id: Option<i64>,
    pub name: String,
    pub description: Option<String>,
    pub color: String,
    pub active: bool,
    pub created_at: Option<String>,
    pub updated_at: Option<String>,
}

#[derive(Debug, Clone, PartialEq)]
pub struct UserPreference {
    pub id: Option<i64>,
    pub key: String,
    pub value: Option<String>,
    pub created_at: Option<String>,
    pub updated_at: Option<String>,
}

pub open spec fn project_id_or_zero(p: Project) -> int {
    match p.id {
        Some(i) => i as int,
        None => 0,
    }
}

/// Largest id in use (ids count as 0 when unset), or 0 for an empty list.
pub open spec fn max_project_id(ps: Seq<Project>) -> int
    decreases ps.len(),
{
    if ps.len() == 0 {
        0
    } else {
        let rest = max_project_id(ps.drop_last());
        if project_id_or_zero(ps.last()) > rest {
            project_id_or_zero(ps.last())
        } else {
            rest
        }
    }
}

/// The id a newly created project gets.
pub fn next_project_id(projects: &Vec<Project>) -> (r: i64)
    requires
        max_project_id(projects@) < i64::MAX,
    ensures
        r as int == max_project_id(projects@) + 1,
{
    let mut best: i64 = 0;
    let mut i: usize = 0;
    proof {
        assert(projects@.subrange(0, 0) =~= Seq::<Project>::empty());
    }
    while i < projects.len()
        invariant
            i <= projects.len(),
            best as int == max_project_id(projects@.subrange(0, i as int)),
        decreases projects.len() - i,
    {
        proof {
            let pre = projects@.subrange(0, i as int);
            let post = projects@.subrange(0, i + 1 as int);
            assert(post.drop_last() =~= pre);
            assert(post.last() == projects@[i as int]);
        }
        let cand: i64 = match projects[i].id {
            Some(v) => v,
            None => 0,
        };
        if cand > best {
            best = cand;
        }
        i = i + 1;
    }
    proof {
        assert(projects@.subrange(0, projects@.len() as int) =~= projects@);
    }
    best + 1
}

/// First position holding the project with this id.
pub fn find_project_index(projects: &Vec<Project>, id: i64) -> (r: Option<usize>)
    ensures
        r is Some ==> r->0 < projects@.len() && projects@[r->0 as int].id == Some(id),
        r is None ==> forall|j: int| 0 <= j < projects@.len() ==> projects@[j].id != Some(id),
{
    let mut i: usize = 0;
    while i < projects.len()
        invariant
            i <= projects.len(),
            forall|j: int| 0 <= j < i ==> projects@[j].id != Some(id),
        decreases projects.len() - i,
    {
        let matches_id: bool = match projects[i].id {
            Some(v) => v == id,
            None => false,
        };
        if matches_id {
            return Some(i);
        }
        i = i + 1;
    }
    None
}

fn clone_project(p: &Project) -> (r: Project)
    ensures
        r == *p,
{
    Project {
        id: p.id,
        name: p.name.clone(),
        description: match &p.description {
            Some(d) => Some(d.clone()),
            None => None,
        },
        color: p.color.clone(),
        active: p.active,
        created_at: match &p.created_at {
            Some(d) => Some(d.clone()),
            None => None,
        },
        updated_at: match &p.updated_at {
            Some(d) => Some(d.clone()),
            None => None,
        },
    }
}

/// The projects that survive deleting `id`, in order.
pub open spec fn without_project_id(ps: Seq<Project>, id: i64) -> Seq<Project>
    decreases ps.len(),
{
    if ps.len() == 0 {
        Seq::empty()
    } else {
        without_project_id(ps.drop_last(), id) + if ps.last().id == Some(id) {
            Seq::empty()
        } else {
            seq![ps.last()]
        }
    }
}

/// Deletes the project with this id; reports whether anything went.
pub fn delete_project_by_id(projects: &Vec<Project>, id: i64) -> (r: (Vec<Project>, bool))
    ensures
        r.0@ == without_project_id(projects@, id),
        r.1 == (r.0@.len() < projects@.len()),
{
    let mut out: Vec<Project> = Vec::new();
    let mut i: usize = 0;
    proof {
        assert(projects@.subrange(0, 0) =~= Seq::<Project>::empty());
        assert(out@ =~= without_project_id(projects@.subrange(0, 0), id));
    }
    while i < projects.len()
        invariant
            i <= projects.len(),
            out@ == without_project_id(projects@.subrange(0, i as int), id),
            out@.len() <= i,
        decreases projects.len() - i,
    {
        proof {
            let pre = projects@.subrange(0, i as int);
            let post = projects@.subrange(0, i + 1 as int);
            assert(post.drop_last() =~= pre);
            assert(post.last() == projects@[i as int]);
        }
        let is_deleted: bool = match projects[i].id {
            Some(v) => v == id,
            None => false,
        };
        if !is_deleted {
            out.push(clone_project(&projects[i]));
            proof {
                assert(out@ =~= without_project_id(projects@.subrange(0, i + 1 as int), id));
            }
        } else {
            proof {
                assert(out@ =~= without_project_id(projects@.subrange(0, i + 1 as int), id));
            }
        }
        i = i + 1;
    }
    proof {
        assert(projects@.subrange(0, projects@.len() as int) =~= projects@);
    }
    let changed = out.len() < projects.len();
    (out, changed)
}

/// The active projects, in order.
pub open spec fn active_projects(ps: Seq<Project>) -> Seq<Project>
    decreases ps.len(),
{
    if ps.len() == 0 {
        Seq::empty()
    } else {
        active_projects(ps.drop_last()) + if ps.last().active {
            seq![ps.last()]
        } else {
            Seq::empty()
        }
    }
}

pub fn filter_active_projects(projects: &Vec<Project>) -> (r: Vec<Project>)
    ensures
        r@ == active_projects(projects@),
{
    let mut out: Vec<Project> = Vec::new();
    let mut i: usize = 0;
    proof {
        assert(projects@.subrange(0, 0) =~= Seq::<Project>::empty());
        assert(out@ =~= active_projects(projects@.subrange(0, 0)));
    }
    while i < projects.len()
        invariant
            i <= projects.len(),
            out@ == active_projects(projects@.subrange(0, i as int)),
        decreases projects.len() - i,
    {
        proof {
            let pre = projects@.subrange(0, i as int);
            let post = projects@.subrange(0, i + 1 as int);
            assert(post.drop_last() =~= pre);
            assert(post.last() == projects@[i as int]);
        }
        if projects[i].active {
            out.push(clone_project(&projects[i]));
            proof {
                assert(out@ =~= active_projects(projects@.subrange(0, i + 1 as int)));
            }
        } else {
            proof {
                assert(out@ =~= active_projects(projects@.subrange(0, i + 1 as int)));
            }
        }
        i = i + 1;
    }
    proof {
        assert(projects@.subrange(0, projects@.len() as int) =~= projects@);
    }
    out
}

pub open spec fn tag_id_or_zero(t: Tag) -> int {
    match t.id {
        Some(i) => i as int,
        None => 0,
    }
}

pub open spec fn max_tag_id(ts: Seq<Tag>) -> int
    decreases ts.len(),
{
    if ts.len() == 0 {
        0
    } else {
        let rest = max_tag_id(ts.drop_last());
        if tag_id_or_zero(ts.last()) > rest {
            tag_id_or_zero(ts.last())
        } else {
            rest
        }
    }
}

/// The id a newly created tag gets.
pub fn next_tag_id(tags: &Vec<Tag>) -> (r: i64)
    requires
        max_tag_id(tags@) < i64::MAX,
    ensures
        r as int == max_tag_id(tags@) + 1,
{
    let mut best: i64 = 0;
    let mut i: usize = 0;
    proof {
        assert(tags@.subrange(0, 0) =~= Seq::<Tag>::empty());
    }
    while i < tags.len()
        invariant
            i <= tags.len(),
            best as int == max_tag_id(tags@.subrange(0, i as int)),
        decreases tags.len() - i,
    {
        proof {
            let pre = tags@.subrange(0, i as int);
            let post = tags@.subrange(0, i + 1 as int);
            assert(post.drop_last() =~= pre);
            assert(post.last() == tags@[i as int]);
        }
        let cand: i64 = match tags[i].id {
            Some(v) => v,
            None => 0,
        };
        if cand > best {
            best = cand;
        }
        i = i + 1;
    }
    proof {
        assert(tags@.subrange(0, tags@.len() as int) =~= tags@);
    }
    best + 1
}

/// First position holding the tag with this id.
pub fn find_tag_index(tags: &Vec<Tag>, id: i64) -> (r: Option<usize>)
    ensures
        r is Some ==> r->0 < tags@.len() && tags@[r->0 as int].id == Some(id),
        r is None ==> forall|j: int| 0 <= j < tags@.len() ==> tags@[j].id != Some(id),
{
    let mut i: usize = 0;
    while i < tags.len()
        invariant
            i <= tags.len(),
            forall|j: int| 0 <= j < i ==> tags@[j].id != Some(id),
        decreases tags.len() - i,
    {
        let matches_id: bool = match tags[i].id {
            Some(v) => v == id,
            None => false,
        };
        if matches_id {
            return Some(i);
        }
        i = i + 1;
    }
    None
}

fn clone_tag(t: &Tag) -> (r: Tag)
    ensures
        r == *t,
{
    Tag {
        id: t.id,
        name: t.name.clone(),
        description: match &t.description {
            Some(d) => Some(d.clone()),
            None => None,
        },
        color: t.color.clone(),
        active: t.active,
        created_at: match &t.created_at {
            Some(d) => Some(d.clone()),
            None => None,
        },
        updated_at: match &t.updated_at {
            Some(d) => Some(d.clone()),
            None => None,
        },
    }
}

pub open spec fn without_tag_id(ts: Seq<Tag>, id: i64) -> Seq<Tag>
    decreases ts.len(),
{
    if ts.len() == 0 {
        Seq::empty()
    } else {
        without_tag_id(ts.drop_last(), id) + if ts.last().id == Some(id) {
            Seq::empty()
        } else {
            seq![ts.last()]
        }
    }
}

/// Deletes the tag with this id; reports whether anything went.
pub fn delete_tag_by_id(tags: &Vec<Tag>, id: i64) -> (r: (Vec<Tag>, bool))
    ensures
        r.0@ == without_tag_id(tags@, id),
        r.1 == (r.0@.len() < tags@.len()),
{
    let mut out: Vec<Tag> = Vec::new();
    let mut i: usize = 0;
    proof {
        assert(tags@.subrange(0, 0) =~= Seq::<Tag>::empty());
        assert(out@ =~= without_tag_id(tags@.subrange(0, 0), id));
    }
    while i < tags.len()
        invariant
            i <= tags.len(),
            out@ == without_tag_id(tags@.subrange(0, i as int), id),
            out@.len() <= i,
        decreases tags.len() - i,
    {
        proof {
            let pre = tags@.subrange(0, i as int);
            let post = tags@.subrange(0, i + 1 as int);
            assert(post.drop_last() =~= pre);
            assert(post.last() == tags@[i as int]);
        }
        let is_deleted: bool = match tags[i].id {
            Some(v) => v == id,
            None => false,
        };
        if !is_deleted {
            out.push(clone_tag(&tags[i]));
            proof {
                assert(out@ =~= without_tag_id(tags@.subrange(0, i + 1 as int), id));
            }
        } else {
            proof {
                assert(out@ =~= without_tag_id(tags@.subrange(0, i + 1 as int), id));
            }
        }
        i = i + 1;
    }
    proof {
        assert(tags@.subrange(0, tags@.len() as int) =~= tags@);
    }
    let changed = out.len() < tags.len();
    (out, changed)
}

pub open spec fn active_tags(ts: Seq<Tag>) -> Seq<Tag>
    decreases ts.len(),
{
    if ts.len() == 0 {
        Seq::empty()
    } else {
        active_tags(ts.drop_last()) + if ts.last().active {
            seq![ts.last()]
        } else {
            Seq::empty()
        }
    }
}

pub fn filter_active_tags(tags: &Vec<Tag>) -> (r: Vec<Tag>)
    ensures
        r@ == active_tags(tags@),
{
    let mut out: Vec<Tag> = Vec::new();
    let mut i: usize = 0;
    proof {
        assert(tags@.subrange(0, 0) =~= Seq::<Tag>::empty());
        assert(out@ =~= active_tags(tags@.subrange(0, 0)));
    }
    while i < tags.len()
        invariant
            i <= tags.len(),
            out@ == active_tags(tags@.subrange(0, i as int)),
        decreases tags.len() - i,
    {
        proof {
            let pre = tags@.subrange(0, i as int);
            let post = tags@.subrange(0, i + 1 as int);
            assert(post.drop_last() =~= pre);
            assert(post.last() == tags@[i as int]);
        }
        if tags[i].active {
            out.push(clone_tag(&tags[i]));
            proof {
                assert(out@ =~= active_tags(tags@.subrange(0, i + 1 as int)));
            }
        } else {
            proof {
                assert(out@ =~= active_tags(tags@.subrange(0, i + 1 as int)));
            }
        }
        i = i + 1;
    }
    proof {
        assert(tags@.subrange(0, tags@.len() as int) =~= tags@);
    }
    out
}

} // verus!
