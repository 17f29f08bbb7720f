use vstd::prelude::*;

verus! {

/// Number of tiles of height `th` that cover `height` pixels.
pub open spec fn tile_count(height: nat, th: nat) -> nat {
    if th == 0 {
        0
    } else {
        ((height + th - 1) / th as int) as nat
    }
}

/// The horizontal slices of a rendered page: tile `k` starts at `k * th` and is `th` pixels
/// high, the last one possibly less; at most `max_tiles` of them when a limit is given.
pub fn tile_spans(height: u32, tile_height: u32, max_tiles: Option<usize>) -> (r: Vec<(u32, u32)>)
    requires
        tile_height > 0,
    ensures
        r@.len() == match max_tiles {
            Some(m) => if (m as nat) < tile_count(height as nat, tile_height as nat) { m as nat } else {
                tile_count(height as nat, tile_height as nat)
            },
            None => tile_count(height as nat, tile_height as nat),
        },
        forall|k: int| 0 <= k < r@.len() ==> (#[trigger] r@[k]).0 == k * tile_height && r@[k].1 == if tile_height
            <= height - k * tile_height {
            tile_height as int
        } else {
            height - k * tile_height
        },
{
    let total: u64 = ((height as u64) + (tile_height as u64) - 1) / (tile_height as u64);
    let count: u64 = match max_tiles {
        Some(m) => if (m as u64) < total { m as u64 } else { total },
        None => total,
    };
    let mut out: Vec<(u32, u32)> = Vec::new();
    let mut k: u64 = 0;
    while k < count
        invariant
            tile_height > 0,
            total == tile_count(height as nat, tile_height as nat),
            count <= total,
            k <= count,
            out@.len() == k,
            forall|j: int| 0 <= j < out@.len() ==> (#[trigger] out@[j]).0 == j * tile_height && out@[j].1 == if tile_height
                <= height - j * tile_height {
                tile_height as int
            } else {
                height - j * tile_height
            },
        decreases count - k,
    {
        proof {
            lemma_tile_start(height as nat, tile_height as nat, k as nat);
        }
        let y: u64 = k * (tile_height as u64);
        let rest: u64 = (height as u64) - y;
        let h: u64 = if (tile_height as u64) <= rest { tile_height as u64 } else { rest };
        out.push((y as u32, h as u32));
        k += 1;
    }
    out
}

pub proof fn lemma_tile_start(height: nat, th: nat, k: nat)
    requires
        th > 0,
        k < tile_count(height, th),
    ensures
        k * th < height,
{
    assert(k * th < height) by (nonlinear_arith)
        requires
            th > 0,
            k < (height + th - 1) / th as int,
    ;
}

/// The tile-cache theme key: the theme name with the tile format version.
pub open spec fn theme_key(theme: Seq<char>) -> Seq<char> {
    theme + ":bgv2"@
}

pub fn derived_theme_key(theme: &str) -> (r: String)
    ensures
        r@ == theme_key(theme@),
{
    let mut out = crate::store::string_of_str(theme);
    crate::text::push_str(&mut out, ":bgv2");
    out
}

/// A render result is shown only when it is for the message, width and tile height that are
/// selected now.
pub fn accepts_render_event(
    selected_id: Option<i64>,
    width_px: i64,
    tile_height_px: i64,
    event_message_id: i64,
    event_width_px: i64,
    event_tile_height_px: i64,
) -> (r: bool)
    ensures
        r == (selected_id == Some(event_message_id) && width_px == event_width_px && tile_height_px
            == event_tile_height_px),
{
    match selected_id {
        Some(id) => id == event_message_id && width_px == event_width_px && tile_height_px == event_tile_height_px,
        None => false,
    }
}

/// Entries kept by the image-protocol cache.
pub const PROTOCOL_CACHE_CAP: usize = 16;

/// The most recently used (message id, tile index) keys, newest first, at most sixteen.
pub struct ProtocolCache {
    pub keys: Vec<(i64, i64)>,
}

/// `keys` without `key`.
pub open spec fn without(keys: Seq<(i64, i64)>, key: (i64, i64)) -> Seq<(i64, i64)> {
    keys.filter(|k: (i64, i64)| k != key)
}

/// `keys` after a use of `key`: `key` first, then the others in their order, the oldest
/// dropped beyond the capacity.
pub open spec fn after_use(keys: Seq<(i64, i64)>, key: (i64, i64)) -> Seq<(i64, i64)> {
    let rest = without(keys, key);
    let all = seq![key] + rest;
    if all.len() > PROTOCOL_CACHE_CAP {
        all.subrange(0, PROTOCOL_CACHE_CAP as int)
    } else {
        all
    }
}

impl ProtocolCache {
    pub fn new() -> (r: Self)
        ensures
            r.keys@.len() == 0,
    {
        ProtocolCache { keys: Vec::new() }
    }

    /// Records a use of `key`.
    pub fn touch(&mut self, key: (i64, i64))
        ensures
            final(self).keys@ == after_use(old(self).keys@, key),
    {
        let ghost before = self.keys@;
        let mut next: Vec<(i64, i64)> = Vec::new();
        next.push(key);
        let mut i: usize = 0;
        while i < self.keys.len()
            invariant
                before == self.keys@,
                i <= before.len(),
                next@ == seq![key] + without(before.subrange(0, i as int), key),
            decreases self.keys.len() - i,
        {
            proof {
                reveal(Seq::filter);
                let s1 = before.subrange(0, i as int + 1);
                assert(s1.drop_last() =~= before.subrange(0, i as int));
                assert(s1.last() == before[i as int]);
            }
            let k = self.keys[i];
            if !(k.0 == key.0 && k.1 == key.1) {
                next.push(k);
                proof {
                    let s1 = before.subrange(0, i as int + 1);
                    assert(without(s1, key) == if s1.last() != key { without(s1.drop_last(), key).push(s1.last()) } else { without(s1.drop_last(), key) });
                    assert(next@ =~= seq![key] + without(s1, key));
                }
            } else {
                proof {
                    let s1 = before.subrange(0, i as int + 1);
                    assert(without(s1, key) == if s1.last() != key { without(s1.drop_last(), key).push(s1.last()) } else { without(s1.drop_last(), key) });
                    assert(next@ =~= seq![key] + without(s1, key));
                }
            }
            i += 1;
        }
        assert(before.subrange(0, before.len() as int) =~= before);
        let ghost all = next@;
        assert(all == seq![key] + without(before, key));
        if next.len() > PROTOCOL_CACHE_CAP {
            next.truncate(PROTOCOL_CACHE_CAP);
            assert(next@ =~= all.subrange(0, PROTOCOL_CACHE_CAP as int));
        }
        self.keys = next;
    }

    /// Whether `key` is cached.
    pub fn contains(&self, key: (i64, i64)) -> (r: bool)
        ensures
            r == self.keys@.contains(key),
    {
        let mut i: usize = 0;
        while i < self.keys.len()
            invariant
                i <= self.keys@.len(),
                forall|j: int| 0 <= j < i ==> self.keys@[j] != key,
            decreases self.keys.len() - i,
        {
            if self.keys[i].0 == key.0 && self.keys[i].1 == key.1 {
                return true;
            }
            i += 1;
        }
        false
    }

    /// Forgets every entry, as when the visible area changes size.
    pub fn purge(&mut self)
        ensures
            final(self).keys@.len() == 0,
    {
        self.keys = Vec::new();
    }
}

} // verus!
