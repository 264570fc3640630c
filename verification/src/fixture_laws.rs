//! What a fixture scene keeps: the board it commits lies inside the zone,
//! with no two tiles overlapping and no tile committed twice; and no
//! shipped scene names a word twice.
use crate::fixture::{
    NamedTile, SceneEntry, adopt, adopt_all, committed_has, entry_cell, find_named, fixture_run,
    fixture_step, index_of_entity, scene_words_distinct, spec_dense_scene,
    spec_edge_scene, spec_scattered_scene,
};
use crate::placement::{Point, TileRect, spec_fits, spec_overlaps, spec_plan};
use crate::placement_laws::{
    board_clear, distinct_entities, fits_all, has_counterpart, lemma_plan_keeps_board_clear,
};
use vstd::prelude::*;

verus! {

/// Every tile has a non-negative extent.
pub open spec fn sizes_nonneg(tiles: Seq<NamedTile>) -> bool {
    forall|k: int| 0 <= k < tiles.len() ==> (#[trigger] tiles[k]).size.x >= 0 && tiles[k].size.y >= 0
}

spec fn extents_nonneg(c: Seq<TileRect>) -> bool {
    forall|k: int| 0 <= k < c.len() ==> (#[trigger] c[k]).size.x >= 0 && c[k].size.y >= 0
}

proof fn lemma_find_named(tiles: Seq<NamedTile>, word: Seq<char>, c: Seq<TileRect>)
    ensures
        find_named(tiles, word, c) matches Some(t) ==> tiles.contains(t) && !committed_has(
            c,
            t.entity,
        ),
    decreases tiles.len(),
{
    if tiles.len() > 0 && !(tiles[0].name@ == word && !committed_has(c, tiles[0].entity)) {
        lemma_find_named(tiles.drop_first(), word, c);
        if let Some(t) = find_named(tiles.drop_first(), word, c) {
            let k = choose|k: int| 0 <= k < tiles.drop_first().len() && tiles.drop_first()[k] == t;
            assert(tiles[k + 1] == t);
        }
    }
}

proof fn lemma_index_of_entity(s: Seq<TileRect>, e: u64)
    ensures
        match index_of_entity(s, e) {
            Some(k) => 0 <= k < s.len() && s[k].entity == e,
            None => forall|j: int| 0 <= j < s.len() ==> (#[trigger] s[j]).entity != e,
        },
    decreases s.len(),
{
    if s.len() > 0 && s[0].entity != e {
        lemma_index_of_entity(s.drop_first(), e);
        if index_of_entity(s.drop_first(), e) is None {
            assert forall|j: int| 0 <= j < s.len() implies (#[trigger] s[j]).entity != e by {
                if j > 0 {
                    assert(s[j] == s.drop_first()[j - 1]);
                }
            }
        }
    }
}

proof fn lemma_adopt(c: Seq<TileRect>, t: TileRect)
    requires
        distinct_entities(c),
    ensures
        adopt(c, t).len() == c.len(),
        forall|k: int|
            0 <= k < c.len() ==> {
                &&& (#[trigger] adopt(c, t)[k]).entity == c[k].entity
                &&& adopt(c, t)[k].size == c[k].size
                &&& c[k].entity == t.entity ==> adopt(c, t)[k].pos == t.pos
                &&& c[k].entity != t.entity ==> adopt(c, t)[k] == c[k]
            },
{
    lemma_index_of_entity(c, t.entity);
    if let Some(m) = index_of_entity(c, t.entity) {
        assert forall|k: int| 0 <= k < c.len() && c[k].entity == t.entity implies k == m by {
            if k < m {
                assert(c[k].entity != c[m].entity);
            } else if k > m {
                assert(c[m].entity != c[k].entity);
            }
        }
    }
}

proof fn lemma_adopt_all(c: Seq<TileRect>, r: Seq<TileRect>, m: int)
    requires
        distinct_entities(c),
        distinct_entities(r),
        0 <= m,
    ensures
        ({
            let res = adopt_all(c, r, m);
            &&& res.len() == c.len()
            &&& forall|k: int|
                0 <= k < c.len() ==> {
                    &&& (#[trigger] res[k]).entity == c[k].entity
                    &&& res[k].size == c[k].size
                    &&& forall|i: int|
                        m <= i < r.len() && r[i].entity == c[k].entity ==> res[k].pos
                            == #[trigger] r[i].pos
                    &&& (forall|i: int| m <= i < r.len() ==> (#[trigger] r[i]).entity != c[k].entity)
                        ==> res[k].pos == c[k].pos
                }
        }),
    decreases r.len() - m,
{
    if m < r.len() {
        let c1 = adopt(c, r[m]);
        lemma_adopt(c, r[m]);
        assert(distinct_entities(c1)) by {
            assert forall|i: int, j: int| 0 <= i < j < c1.len() implies c1[i].entity
                != c1[j].entity by {
                assert(c1[i].entity == c[i].entity);
                assert(c1[j].entity == c[j].entity);
            }
        }
        lemma_adopt_all(c1, r, m + 1);
        let res = adopt_all(c1, r, m + 1);
        assert forall|k: int| 0 <= k < c.len() implies {
            &&& (#[trigger] res[k]).entity == c[k].entity
            &&& res[k].size == c[k].size
            &&& forall|i: int|
                m <= i < r.len() && r[i].entity == c[k].entity ==> res[k].pos == #[trigger] r[i].pos
            &&& (forall|i: int| m <= i < r.len() ==> (#[trigger] r[i]).entity != c[k].entity)
                ==> res[k].pos == c[k].pos
        } by {
            assert(c1[k].entity == c[k].entity);
            if c[k].entity == r[m].entity {
                assert forall|i: int| m + 1 <= i < r.len() implies (#[trigger] r[i]).entity
                    != c1[k].entity by {
                    assert(r[m].entity != r[i].entity);
                }
            }
        }
    }
}

/// One entry keeps the board clear.
proof fn lemma_fixture_step_clear(
    entry: SceneEntry,
    tiles: Seq<NamedTile>,
    bounds: Point,
    c: Seq<TileRect>,
)
    requires
        bounds.in_range(),
        sizes_nonneg(tiles),
        board_clear(c, bounds),
        extents_nonneg(c),
    ensures
        board_clear(fixture_step(entry, tiles, bounds, c).0, bounds),
        extents_nonneg(fixture_step(entry, tiles, bounds, c).0),
{
    lemma_find_named(tiles, entry.0@, c);
    if let Some(t) = find_named(tiles, entry.0@, c) {
        let cell = entry_cell(entry.1, entry.2);
        let held = TileRect { entity: t.entity, pos: cell, size: t.size };
        let ti = choose|ti: int| 0 <= ti < tiles.len() && tiles[ti] == t;
        assert(tiles[ti].size.x >= 0 && tiles[ti].size.y >= 0);
        assert forall|k: int| 0 <= k < c.len() implies (#[trigger] c[k]).entity != held.entity by {
            if c[k].entity == held.entity {
                assert(committed_has(c, t.entity));
            }
        }
        lemma_plan_keeps_board_clear(held, c, bounds);
        if let Some(r) = spec_plan(held, c, bounds) {
            lemma_adopt_all(c, r, 0);
            let adopted = adopt_all(c, r, 0);
            let out = adopted.push(held);
            // Each adopted tile is a tile of the plan.
            assert forall|k: int| 0 <= k < adopted.len() implies exists|i: int|
                0 <= i < r.len() && #[trigger] adopted[k] == r[i] by {
                assert(has_counterpart(r, c[k]));
                let i = choose|i: int|
                    0 <= i < r.len() && r[i].entity == c[k].entity && r[i].size == c[k].size;
                assert(adopted[k].pos == r[i].pos);
                assert(adopted[k] == r[i]);
            }
            assert forall|k: int| 0 <= k < out.len() implies spec_fits(#[trigger] out[k], bounds) by {
                if k < adopted.len() {
                    let i = choose|i: int| 0 <= i < r.len() && adopted[k] == r[i];
                    assert(out[k] == r[i]);
                }
            }
            assert forall|k: int|
                0 <= k < out.len() implies (#[trigger] out[k]).size.x >= 0 && out[k].size.y
                >= 0 by {
                if k < adopted.len() {
                    assert(out[k].size == c[k].size);
                }
            }
            assert forall|i: int, j: int| 0 <= i < j < out.len() implies out[i].entity
                != out[j].entity by {
                if j < adopted.len() {
                    assert(c[i].entity != c[j].entity);
                } else {
                    assert(out[i].entity == c[i].entity);
                }
            }
            assert forall|i: int, j: int|
                0 <= i < out.len() && 0 <= j < out.len() && i != j implies !spec_overlaps(
                #[trigger] out[i],
                #[trigger] out[j],
            ) by {
                if i < adopted.len() && j < adopted.len() {
                    let a = choose|a: int| 0 <= a < r.len() && adopted[i] == r[a];
                    let b = choose|b: int| 0 <= b < r.len() && adopted[j] == r[b];
                    assert(out[i] == r[a] && out[j] == r[b]);
                    if a == b {
                        if i < j {
                            assert(c[i].entity != c[j].entity);
                        } else {
                            assert(c[j].entity != c[i].entity);
                        }
                    }
                } else if i < adopted.len() {
                    let a = choose|a: int| 0 <= a < r.len() && adopted[i] == r[a];
                    assert(out[j] == held);
                    assert(!spec_overlaps(held, r[a]));
                } else {
                    let b = choose|b: int| 0 <= b < r.len() && adopted[j] == r[b];
                    assert(out[i] == held);
                    assert(!spec_overlaps(held, r[b]));
                }
            }
        }
    }
}

proof fn lemma_fixture_run_clear(
    scene: Seq<SceneEntry>,
    tiles: Seq<NamedTile>,
    bounds: Point,
    c: Seq<TileRect>,
    i: int,
)
    requires
        bounds.in_range(),
        sizes_nonneg(tiles),
        board_clear(c, bounds),
        extents_nonneg(c),
    ensures
        board_clear(fixture_run(scene, tiles, bounds, c, i).0, bounds),
    decreases scene.len() - i,
{
    if 0 <= i < scene.len() {
        lemma_fixture_step_clear(scene[i], tiles, bounds, c);
        let next = fixture_step(scene[i], tiles, bounds, c).0;
        lemma_fixture_run_clear(scene, tiles, bounds, next, i + 1);
    }
}

/// A committed fixture scene leaves a clear board: every committed tile
/// lies inside the zone, no two of them overlap, and no tile is committed
/// twice.
pub proof fn lemma_fixture_scene_clear(scene: Seq<SceneEntry>, tiles: Seq<NamedTile>, bounds: Point)
    requires
        bounds.in_range(),
        sizes_nonneg(tiles),
    ensures
        board_clear(fixture_run(scene, tiles, bounds, Seq::empty(), 0).0, bounds),
{
    lemma_fixture_run_clear(scene, tiles, bounds, Seq::empty(), 0);
}

// Each word of a scene is told apart from the others by its first letter
// and its length.
proof fn lemma_dense_words_distinct()
    ensures
        scene_words_distinct(spec_dense_scene()),
{
    reveal_strlit("collapse");
    reveal_strlit("the");
    reveal_strlit("shudder");
    reveal_strlit("a");
    reveal_strlit("if");
    reveal_strlit("beneath");
    reveal_strlit("moss");
    reveal_strlit("perhaps");
    reveal_strlit("all");
    reveal_strlit("his");
    reveal_strlit("weapon");
    reveal_strlit("world");
    let s = spec_dense_scene();
    assert forall|i: int, j: int|
        0 <= i < j < s.len() implies (#[trigger] s[i]).0@ != (#[trigger] s[j]).0@ by {
        assert(s[i].0@[0] != s[j].0@[0] || s[i].0@.len() != s[j].0@.len());
    }
}

proof fn lemma_scattered_words_distinct()
    ensures
        scene_words_distinct(spec_scattered_scene()),
{
    reveal_strlit("origin");
    reveal_strlit("glow");
    reveal_strlit("pit");
    reveal_strlit("some");
    reveal_strlit("but");
    reveal_strlit("under");
    reveal_strlit("closed");
    let s = spec_scattered_scene();
    assert forall|i: int, j: int|
        0 <= i < j < s.len() implies (#[trigger] s[i]).0@ != (#[trigger] s[j]).0@ by {
        assert(s[i].0@[0] != s[j].0@[0] || s[i].0@.len() != s[j].0@.len());
    }
}

proof fn lemma_edge_words_distinct()
    ensures
        scene_words_distinct(spec_edge_scene()),
{
    reveal_strlit("within");
    reveal_strlit("an");
    reveal_strlit("upon");
    reveal_strlit("cliff");
    reveal_strlit("dead");
    reveal_strlit("lush");
    let s = spec_edge_scene();
    assert forall|i: int, j: int|
        0 <= i < j < s.len() implies (#[trigger] s[i]).0@ != (#[trigger] s[j]).0@ by {
        assert(s[i].0@[0] != s[j].0@[0] || s[i].0@.len() != s[j].0@.len());
    }
}

/// Within each shipped scene every word is named once, so each entry finds
/// a tile of its own.
pub proof fn lemma_scene_words_distinct()
    ensures
        scene_words_distinct(spec_dense_scene()),
        scene_words_distinct(spec_scattered_scene()),
        scene_words_distinct(spec_edge_scene()),
{
    lemma_dense_words_distinct();
    lemma_scattered_words_distinct();
    lemma_edge_words_distinct();
}

} // verus!
