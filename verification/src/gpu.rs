//! The buffers that the shading stage reads: one record of fixed size for
//! each selected light, and for each cluster the place and length of its
//! list in one shared list of light indices.

use crate::assign::listed_total;
use crate::geometry::IVec3;
use crate::light::{is_selection, select_lights, ExtractedLight, LinearColor};
use vstd::prelude::*;

verus! {

/// Largest number of light records: what one byte of index can address.
pub const MAX_LIGHT_RECORDS: usize = 256;

/// Largest number of shadow maps of point and spot lights.
pub const MAX_SHADOW_MAPS: u32 = 16;

/// What stands in a record in place of a shadow map for a light that has
/// none.
pub const NO_SHADOW_MAP: u32 = 0xffff_ffff;

/// The least radius that a record holds, so that the shading stage never
/// divides by zero.
pub const MIN_RADIUS: u32 = 1;

/// The size of a record in bytes.
pub const RECORD_BYTES: usize = 40;

/// The record of one light.
#[derive(Clone, Copy, Debug, PartialEq, Eq, Structural)]
pub struct GpuLight {
    pub position: IVec3,
    pub range: u32,
    pub radius: u32,
    pub color: LinearColor,
    pub shadow_map: u32,
}

/// The record of light `l` with shadow map `shadow_map`: the light's
/// position, range and colour, and its radius raised to `MIN_RADIUS` where
/// it is smaller.
pub open spec fn spec_record(l: ExtractedLight, shadow_map: u32) -> GpuLight {
    GpuLight {
        position: l.position,
        range: l.range,
        radius: if l.radius < MIN_RADIUS {
            MIN_RADIUS
        } else {
            l.radius
        },
        color: l.color,
        shadow_map,
    }
}

/// The number of lights with shadows among the first `i` of the selection.
pub open spec fn casters_before(lights: Seq<ExtractedLight>, order: Seq<u32>, i: int) -> int
    decreases i,
{
    if i <= 0 {
        0
    } else {
        casters_before(lights, order, i - 1) + if lights[order[i - 1] as int].shadows_enabled {
            1int
        } else {
            0int
        }
    }
}

/// The shadow map of light `i` of the selection: lights with shadows get
/// the maps from zero up in the order of the selection, as long as there
/// are maps; all others get `NO_SHADOW_MAP`.
pub open spec fn shadow_map_of(lights: Seq<ExtractedLight>, order: Seq<u32>, i: int, maps: int)
    -> u32 {
    let before = casters_before(lights, order, i);
    if lights[order[i] as int].shadows_enabled && before < maps {
        before as u32
    } else {
        NO_SHADOW_MAP
    }
}

/// `records` are the records of the selection `order`.
pub open spec fn is_records(
    lights: Seq<ExtractedLight>,
    order: Seq<u32>,
    maps: int,
    records: Seq<GpuLight>,
) -> bool {
    &&& records.len() == order.len()
    &&& forall|i: int|
        0 <= i < records.len() ==> #[trigger] records[i] == spec_record(
            lights[order[i] as int],
            shadow_map_of(lights, order, i, maps),
        )
}

/// The records of the lights that `order` names, in that order.
pub fn gpu_records(lights: &Vec<ExtractedLight>, order: &Vec<u32>, maps: u32) -> (records: Vec<
    GpuLight,
>)
    requires
        forall|i: int| 0 <= i < order@.len() ==> (#[trigger] order@[i]) < lights@.len(),
        maps < NO_SHADOW_MAP,
    ensures
        is_records(lights@, order@, maps as int, records@),
{
    let mut records: Vec<GpuLight> = Vec::new();
    let mut casters: u32 = 0;
    let mut i: usize = 0;
    while i < order.len()
        invariant
            i <= order@.len(),
            records@.len() == i,
            maps < NO_SHADOW_MAP,
            casters <= maps,
            casters == casters_before(lights@, order@, i as int) || (casters == maps
                && casters_before(lights@, order@, i as int) >= maps),
            forall|k: int| 0 <= k < order@.len() ==> (#[trigger] order@[k]) < lights@.len(),
            forall|k: int|
                0 <= k < i ==> #[trigger] records@[k] == spec_record(
                    lights@[order@[k] as int],
                    shadow_map_of(lights@, order@, k, maps as int),
                ),
        decreases order@.len() - i,
    {
        let l: &ExtractedLight = &lights[order[i] as usize];
        let mut shadow_map: u32 = NO_SHADOW_MAP;
        if l.shadows_enabled && casters < maps {
            shadow_map = casters;
            casters = casters + 1;
        }
        records.push(
            GpuLight {
                position: l.position,
                range: l.range,
                radius: if l.radius < MIN_RADIUS {
                    MIN_RADIUS
                } else {
                    l.radius
                },
                color: l.color,
                shadow_map,
            },
        );
        i = i + 1;
    }
    records
}

/// The lights of a frame as the shading stage gets them: which lights were
/// selected, and their records.
#[derive(Debug)]
pub struct GpuLights {
    /// The place, in the list of extracted lights, of the light of each
    /// record.
    pub order: Vec<u32>,
    pub records: Vec<GpuLight>,
}

/// Selects at most `max_records` lights by priority and builds their
/// records. Lights that are not valid get no record; where more valid
/// lights are left than records, those of lowest priority are dropped.
pub fn prepare_lights(lights: &Vec<ExtractedLight>, max_records: usize, maps: u32) -> (r: GpuLights)
    requires
        lights.len() <= u32::MAX,
        maps < NO_SHADOW_MAP,
    ensures
        is_selection(lights@, max_records as int, r.order@),
        is_records(lights@, r.order@, maps as int, r.records@),
        r.records@.len() <= max_records,
{
    let order: Vec<u32> = select_lights(lights, max_records);
    let records: Vec<GpuLight> = gpu_records(lights, &order, maps);
    GpuLights { order, records }
}

/// A whole number as the 32 bits of its two's complement.
pub open spec fn to_bits(x: i32) -> u32 {
    if x >= 0 {
        x as u32
    } else {
        (x + 0x1_0000_0000) as u32
    }
}

/// The whole number whose two's complement has the given 32 bits.
pub open spec fn from_bits(u: u32) -> i32 {
    if u < 0x8000_0000 {
        u as i32
    } else {
        (u - 0x1_0000_0000) as i32
    }
}

/// Byte `j` of `x`, the least significant first.
pub open spec fn le_byte(x: u32, j: int) -> u8 {
    if j == 0 {
        (x % 256) as u8
    } else if j == 1 {
        ((x / 0x100) % 256) as u8
    } else if j == 2 {
        ((x / 0x1_0000) % 256) as u8
    } else {
        (x / 0x100_0000) as u8
    }
}

/// The number whose four bytes start at place `at` of `b`, the least
/// significant first.
pub open spec fn le_word(b: Seq<u8>, at: int) -> u32 {
    (b[at] + 0x100 * b[at + 1] + 0x1_0000 * b[at + 2] + 0x100_0000 * b[at + 3]) as u32
}

impl GpuLight {
    /// Word `k` of the record.
    pub open spec fn word(self, k: int) -> u32 {
        if k == 0 {
            to_bits(self.position.x)
        } else if k == 1 {
            to_bits(self.position.y)
        } else if k == 2 {
            to_bits(self.position.z)
        } else if k == 3 {
            self.range
        } else if k == 4 {
            self.radius
        } else if k == 5 {
            self.color.red
        } else if k == 6 {
            self.color.green
        } else if k == 7 {
            self.color.blue
        } else if k == 8 {
            self.color.alpha
        } else {
            self.shadow_map
        }
    }

    /// The bytes of the record: ten words of four bytes, each with its
    /// least significant byte first. Position comes first, as three
    /// numbers in two's complement, then range, radius, the four parts of
    /// the colour, and the shadow map.
    pub open spec fn bytes(self) -> Seq<u8> {
        Seq::new(40, |i: int| le_byte(self.word(i / 4), i % 4))
    }

    /// The record that the forty bytes from place `at` of `b` hold.
    pub open spec fn parse(b: Seq<u8>, at: int) -> GpuLight {
        GpuLight {
            position: IVec3 {
                x: from_bits(le_word(b, at)),
                y: from_bits(le_word(b, at + 4)),
                z: from_bits(le_word(b, at + 8)),
            },
            range: le_word(b, at + 12),
            radius: le_word(b, at + 16),
            color: LinearColor {
                red: le_word(b, at + 20),
                green: le_word(b, at + 24),
                blue: le_word(b, at + 28),
                alpha: le_word(b, at + 32),
            },
            shadow_map: le_word(b, at + 36),
        }
    }

    /// Word `k` of the record.
    fn word_exec(&self, k: usize) -> (w: u32)
        requires
            k < 10,
        ensures
            w == self.word(k as int),
    {
        if k == 0 {
            bits_of(self.position.x)
        } else if k == 1 {
            bits_of(self.position.y)
        } else if k == 2 {
            bits_of(self.position.z)
        } else if k == 3 {
            self.range
        } else if k == 4 {
            self.radius
        } else if k == 5 {
            self.color.red
        } else if k == 6 {
            self.color.green
        } else if k == 7 {
            self.color.blue
        } else if k == 8 {
            self.color.alpha
        } else {
            self.shadow_map
        }
    }

    /// Appends the bytes of the record to `out`.
    pub fn write(&self, out: &mut Vec<u8>)
        ensures
            final(out)@ == old(out)@ + self.bytes(),
    {
        let ghost start = out@;
        let mut k: usize = 0;
        while k < 10
            invariant
                k <= 10,
                out@ == start + self.bytes().subrange(0, 4 * k),
            decreases 10 - k,
        {
            let w: u32 = self.word_exec(k);
            out.push((w % 256) as u8);
            out.push(((w / 0x100) % 256) as u8);
            out.push(((w / 0x1_0000) % 256) as u8);
            out.push((w / 0x100_0000) as u8);
            proof {
                let r = self.bytes();
                assert(r[4 * k] == le_byte(self.word(k as int), 0));
                assert(r[4 * k + 1] == le_byte(self.word(k as int), 1));
                assert(r[4 * k + 2] == le_byte(self.word(k as int), 2));
                assert(r[4 * k + 3] == le_byte(self.word(k as int), 3));
                assert(out@ =~= start + r.subrange(0, 4 * k + 4));
            }
            k = k + 1;
        }
        assert(self.bytes().subrange(0, 40) =~= self.bytes());
    }

    /// The record that the forty bytes from place `at` of `b` hold; `None`
    /// where `b` has fewer bytes.
    pub fn read(b: &Vec<u8>, at: usize) -> (r: Option<GpuLight>)
        ensures
            r.is_some() == (at + 40 <= b@.len()),
            r matches Some(l) ==> l == GpuLight::parse(b@, at as int),
    {
        if b.len() < 40 || at > b.len() - 40 {
            return None;
        }
        Some(
            GpuLight {
                position: IVec3 {
                    x: number_of(read_word(b, at)),
                    y: number_of(read_word(b, at + 4)),
                    z: number_of(read_word(b, at + 8)),
                },
                range: read_word(b, at + 12),
                radius: read_word(b, at + 16),
                color: LinearColor {
                    red: read_word(b, at + 20),
                    green: read_word(b, at + 24),
                    blue: read_word(b, at + 28),
                    alpha: read_word(b, at + 32),
                },
                shadow_map: read_word(b, at + 36),
            },
        )
    }
}

/// A whole number as the 32 bits of its two's complement.
fn bits_of(x: i32) -> (u: u32)
    ensures
        u == to_bits(x),
{
    if x >= 0 {
        x as u32
    } else {
        ((x as i64) + 0x1_0000_0000) as u32
    }
}

/// The whole number whose two's complement has the given 32 bits.
fn number_of(u: u32) -> (x: i32)
    ensures
        x == from_bits(u),
{
    if u < 0x8000_0000 {
        u as i32
    } else {
        ((u as i64) - 0x1_0000_0000) as i32
    }
}

/// The number whose four bytes start at place `at` of `b`.
fn read_word(b: &Vec<u8>, at: usize) -> (w: u32)
    requires
        at + 4 <= b@.len(),
    ensures
        w == le_word(b@, at as int),
{
    let len: usize = b.len();
    assert(at + 4 <= len);
    (b[at] as u32) + 0x100 * (b[at + 1] as u32) + 0x1_0000 * (b[at + 2] as u32) + 0x100_0000 * (b[at
        + 3] as u32)
}

/// A number is made up of its four bytes.
proof fn lemma_word_of_bytes(w: u32)
    ensures
        w == le_byte(w, 0) + 0x100 * le_byte(w, 1) + 0x1_0000 * le_byte(w, 2) + 0x100_0000
            * le_byte(w, 3),
{
    let x = w as int;
    let a = x / 0x100;
    let b = a / 0x100;
    let c = b / 0x100;
    vstd::arithmetic::div_mod::lemma_div_denominator(x, 0x100, 0x100);
    vstd::arithmetic::div_mod::lemma_div_denominator(x, 0x1_0000, 0x100);
    assert(0x100 * 0x100 == 0x1_0000 && 0x1_0000 * 0x100 == 0x100_0000) by (nonlinear_arith);
    assert(b == x / 0x1_0000);
    assert(c == x / 0x100_0000);
    assert(x == 0x100 * a + x % 0x100);
    assert(a == 0x100 * b + a % 0x100);
    assert(b == 0x100 * c + b % 0x100);
    assert(0 <= c < 0x100);
}

/// Word `k` of a record can be read back from the record's bytes, wherever
/// in a buffer they stand.
proof fn lemma_word_reads_back(l: GpuLight, b: Seq<u8>, at: int, k: int)
    requires
        0 <= at,
        at + 40 <= b.len(),
        b.subrange(at, at + 40) == l.bytes(),
        0 <= k < 10,
    ensures
        le_word(b, at + 4 * k) == l.word(k),
{
    let r = b.subrange(at, at + 40);
    let w = l.word(k);
    assert(b[at + 4 * k] == r[4 * k]);
    assert(b[at + 4 * k + 1] == r[4 * k + 1]);
    assert(b[at + 4 * k + 2] == r[4 * k + 2]);
    assert(b[at + 4 * k + 3] == r[4 * k + 3]);
    assert(l.bytes()[4 * k] == le_byte(l.word((4 * k) / 4), (4 * k) % 4));
    assert(l.bytes()[4 * k + 1] == le_byte(l.word((4 * k + 1) / 4), (4 * k + 1) % 4));
    assert(l.bytes()[4 * k + 2] == le_byte(l.word((4 * k + 2) / 4), (4 * k + 2) % 4));
    assert(l.bytes()[4 * k + 3] == le_byte(l.word((4 * k + 3) / 4), (4 * k + 3) % 4));
    lemma_word_of_bytes(w);
}

/// The two's complement of a whole number names that number.
proof fn lemma_bits_round_trip(x: i32)
    ensures
        from_bits(to_bits(x)) == x,
{
}

/// Reading the bytes of a record gives the record back, wherever in a
/// buffer they stand.
pub proof fn lemma_record_round_trip(l: GpuLight, b: Seq<u8>, at: int)
    requires
        0 <= at,
        at + 40 <= b.len(),
        b.subrange(at, at + 40) == l.bytes(),
    ensures
        GpuLight::parse(b, at) == l,
{
    lemma_word_reads_back(l, b, at, 0);
    lemma_word_reads_back(l, b, at, 1);
    lemma_word_reads_back(l, b, at, 2);
    lemma_word_reads_back(l, b, at, 3);
    lemma_word_reads_back(l, b, at, 4);
    lemma_word_reads_back(l, b, at, 5);
    lemma_word_reads_back(l, b, at, 6);
    lemma_word_reads_back(l, b, at, 7);
    lemma_word_reads_back(l, b, at, 8);
    lemma_word_reads_back(l, b, at, 9);
    lemma_bits_round_trip(l.position.x);
    lemma_bits_round_trip(l.position.y);
    lemma_bits_round_trip(l.position.z);
    let back = GpuLight::parse(b, at);
    assert(back.position.x == l.position.x);
    assert(back.position.y == l.position.y);
    assert(back.position.z == l.position.z);
    assert(back.range == l.range);
    assert(back.radius == l.radius);
    assert(back.color.red == l.color.red);
    assert(back.color.green == l.color.green);
    assert(back.color.blue == l.color.blue);
    assert(back.color.alpha == l.color.alpha);
    assert(back.shadow_map == l.shadow_map);
}

/// The bytes of the records of `records`, one record after the other.
pub fn pack_lights(records: &Vec<GpuLight>) -> (out: Vec<u8>)
    ensures
        out@.len() == 40 * records@.len(),
        forall|i: int|
            0 <= i < records@.len() ==> out@.subrange(40 * i, 40 * i + 40)
                == (#[trigger] records@[i]).bytes(),
{
    let mut out: Vec<u8> = Vec::new();
    let mut n: usize = 0;
    while n < records.len()
        invariant
            n <= records@.len(),
            out@.len() == 40 * n,
            forall|i: int|
                0 <= i < n ==> out@.subrange(40 * i, 40 * i + 40) == (#[trigger] records@[i]).bytes(),
        decreases records@.len() - n,
    {
        let ghost before = out@;
        records[n].write(&mut out);
        proof {
            assert forall|i: int| 0 <= i < n + 1 implies out@.subrange(40 * i, 40 * i + 40) == (
            #[trigger] records@[i]).bytes() by {
                if i < n {
                    assert(out@.subrange(40 * i, 40 * i + 40) =~= before.subrange(
                        40 * i,
                        40 * i + 40,
                    ));
                } else {
                    assert(out@.subrange(40 * i, 40 * i + 40) =~= records@[i].bytes());
                }
            }
        }
        n = n + 1;
    }
    out
}

/// The list of cluster `c` fits: the lists of the clusters up to and
/// including it hold no more light indices than `capacity`.
pub open spec fn fits(cells: Seq<Vec<u32>>, capacity: int, c: int) -> bool {
    listed_total(cells, c + 1) <= capacity
}

/// The lists of the first `c` clusters that fit, one after the other.
pub open spec fn flat(cells: Seq<Vec<u32>>, capacity: int, c: int) -> Seq<u32>
    decreases c,
{
    if c <= 0 {
        Seq::empty()
    } else if fits(cells, capacity, c - 1) {
        flat(cells, capacity, c - 1) + cells[c - 1]@
    } else {
        flat(cells, capacity, c - 1)
    }
}

/// The cluster buffers of a frame: for each cluster the place at which its
/// list starts in `indices` and the length of the list, and the lists
/// themselves, one after the other.
#[derive(Debug)]
pub struct ClusterBuffers {
    pub table: Vec<(u32, u32)>,
    pub indices: Vec<u32>,
}

/// `table` and `indices` are the cluster buffers of `cells`: the lists that
/// fit stand in `indices` in the order of the clusters, a cluster whose
/// list does not fit has length zero, and each cluster's entry gives the
/// place where its list starts.
pub open spec fn is_cluster_buffers(
    cells: Seq<Vec<u32>>,
    capacity: int,
    table: Seq<(u32, u32)>,
    indices: Seq<u32>,
) -> bool {
    &&& table.len() == cells.len()
    &&& indices == flat(cells, capacity, cells.len() as int)
    &&& forall|c: int|
        0 <= c < table.len() ==> #[trigger] table[c] == (
            flat(cells, capacity, c).len() as u32,
            if fits(cells, capacity, c) {
                cells[c]@.len() as u32
            } else {
                0u32
            },
        )
}

/// The number of listed indices never falls from one cluster to the next.
pub proof fn lemma_listed_total_monotone(cells: Seq<Vec<u32>>, a: int, b: int)
    requires
        0 <= a <= b,
    ensures
        0 <= listed_total(cells, a) <= listed_total(cells, b),
    decreases b,
{
    if b > 0 {
        if a < b {
            lemma_listed_total_monotone(cells, a, b - 1);
        } else {
            lemma_listed_total_monotone(cells, a - 1, b - 1);
        }
    }
}

/// The lists that fit hold no more indices than the capacity, and hold
/// every index listed so far as long as every list has fit.
pub proof fn lemma_flat_len(cells: Seq<Vec<u32>>, capacity: int, c: int)
    requires
        0 <= c,
        0 <= capacity,
    ensures
        flat(cells, capacity, c).len() <= capacity,
        c >= 1 && fits(cells, capacity, c - 1) ==> flat(cells, capacity, c).len() == listed_total(
            cells,
            c,
        ),
    decreases c,
{
    if c > 0 {
        lemma_flat_len(cells, capacity, c - 1);
        if fits(cells, capacity, c - 1) {
            if c >= 2 {
                lemma_listed_total_monotone(cells, c - 1, c);
                assert(fits(cells, capacity, c - 2));
            } else {
                assert(listed_total(cells, 0) == 0);
                assert(flat(cells, capacity, 0).len() == 0);
            }
        }
    }
}

/// Packs the lists of the clusters into the cluster buffers. Lists are
/// taken in the order of the clusters until one would take the shared list
/// beyond `capacity`; that cluster and all after it are given no lights.
pub fn prepare_clusters(cells: &Vec<Vec<u32>>, capacity: u32) -> (r: ClusterBuffers)
    ensures
        is_cluster_buffers(cells@, capacity as int, r.table@, r.indices@),
        r.indices@.len() <= capacity,
{
    let mut table: Vec<(u32, u32)> = Vec::new();
    let mut indices: Vec<u32> = Vec::new();
    let mut full: bool = false;
    let mut c: usize = 0;
    while c < cells.len()
        invariant
            c <= cells@.len(),
            table@.len() == c,
            indices@ == flat(cells@, capacity as int, c as int),
            indices@.len() <= capacity,
            !full ==> indices@.len() == listed_total(cells@, c as int),
            full ==> listed_total(cells@, c as int) > capacity,
            forall|a: int|
                0 <= a < c ==> #[trigger] table@[a] == (
                    flat(cells@, capacity as int, a).len() as u32,
                    if fits(cells@, capacity as int, a) {
                        cells@[a]@.len() as u32
                    } else {
                        0u32
                    },
                ),
        decreases cells@.len() - c,
    {
        let list: &Vec<u32> = &cells[c];
        let start: usize = indices.len();
        proof {
            lemma_listed_total_monotone(cells@, c as int, c + 1);
        }
        if !full && list.len() <= capacity as usize - start {
            let mut j: usize = 0;
            while j < list.len()
                invariant
                    j <= list@.len(),
                    indices@ == flat(cells@, capacity as int, c as int) + list@.subrange(
                        0,
                        j as int,
                    ),
                decreases list@.len() - j,
            {
                indices.push(list[j]);
                assert(indices@ =~= flat(cells@, capacity as int, c as int) + list@.subrange(
                    0,
                    j + 1,
                ));
                j = j + 1;
            }
            assert(list@.subrange(0, list@.len() as int) =~= list@);
            table.push((start as u32, list.len() as u32));
        } else {
            full = true;
            table.push((start as u32, 0));
        }
        c = c + 1;
    }
    ClusterBuffers { table, indices }
}

/// The list of a cluster that fits can be read back from the shared list:
/// it stands there, whole, at the place that the cluster's entry gives.
pub proof fn lemma_cluster_list_reads_back(cells: Seq<Vec<u32>>, capacity: int, c: int, up_to: int)
    requires
        0 <= c < up_to <= cells.len(),
        fits(cells, capacity, c),
    ensures
        ({
            let all = flat(cells, capacity, up_to);
            let start = flat(cells, capacity, c).len() as int;
            &&& start + cells[c]@.len() <= all.len()
            &&& all.subrange(start, start + cells[c]@.len()) == cells[c]@
        }),
    decreases up_to,
{
    let start = flat(cells, capacity, c).len() as int;
    let len = cells[c]@.len() as int;
    if up_to == c + 1 {
        assert(flat(cells, capacity, up_to).subrange(start, start + len) =~= cells[c]@);
    } else {
        lemma_cluster_list_reads_back(cells, capacity, c, up_to - 1);
        let before = flat(cells, capacity, up_to - 1);
        assert(flat(cells, capacity, up_to).subrange(start, start + len) =~= before.subrange(
            start,
            start + len,
        ));
    }
}

/// A selected light comes back from the bytes of the light buffer as it
/// went in: with its position, range and colour, with its radius raised to
/// `MIN_RADIUS` where it was smaller, and with the shadow map that its
/// place in the selection gave it.
pub proof fn lemma_light_reads_back(
    lights: Seq<ExtractedLight>,
    order: Seq<u32>,
    maps: int,
    records: Seq<GpuLight>,
    bytes: Seq<u8>,
    i: int,
)
    requires
        is_records(lights, order, maps, records),
        bytes.len() == 40 * records.len(),
        forall|k: int|
            0 <= k < records.len() ==> bytes.subrange(40 * k, 40 * k + 40)
                == (#[trigger] records[k]).bytes(),
        0 <= i < records.len(),
    ensures
        ({
            let l = lights[order[i] as int];
            let r = GpuLight::parse(bytes, 40 * i);
            &&& r == records[i]
            &&& r.position == l.position
            &&& r.range == l.range
            &&& r.color == l.color
            &&& r.radius == if l.radius < MIN_RADIUS {
                MIN_RADIUS
            } else {
                l.radius
            }
            &&& r.shadow_map == shadow_map_of(lights, order, i, maps)
        }),
{
    assert(bytes.subrange(40 * i, 40 * i + 40) == records[i].bytes());
    lemma_record_round_trip(records[i], bytes, 40 * i);
}

/// The four bytes of `w`, the least significant first.
pub open spec fn word_bytes(w: u32) -> Seq<u8> {
    seq![le_byte(w, 0), le_byte(w, 1), le_byte(w, 2), le_byte(w, 3)]
}

/// Appends the four bytes of `w` to `out`.
fn push_word(out: &mut Vec<u8>, w: u32)
    ensures
        final(out)@ == old(out)@ + word_bytes(w),
{
    out.push((w % 256) as u8);
    out.push(((w / 0x100) % 256) as u8);
    out.push(((w / 0x1_0000) % 256) as u8);
    out.push((w / 0x100_0000) as u8);
    assert(out@ =~= old(out)@ + word_bytes(w));
}

/// The bytes of cluster buffers: first the table, with eight bytes for
/// each cluster, four for the place of its list and four for the length;
/// then the shared list, with four bytes for each light index.
pub open spec fn cluster_bytes(table: Seq<(u32, u32)>, indices: Seq<u32>) -> Seq<u8> {
    Seq::new(
        (8 * table.len() + 4 * indices.len()) as nat,
        |i: int|
            if i < 8 * table.len() {
                le_byte(
                    if i % 8 < 4 {
                        table[i / 8].0
                    } else {
                        table[i / 8].1
                    },
                    i % 4,
                )
            } else {
                le_byte(indices[(i - 8 * table.len()) / 4], (i - 8 * table.len()) % 4)
            },
    )
}

/// The entry of cluster `c` in the bytes of cluster buffers.
pub open spec fn parse_entry(b: Seq<u8>, c: int) -> (u32, u32) {
    (le_word(b, 8 * c), le_word(b, 8 * c + 4))
}

/// Light index `k` of the shared list in the bytes of the cluster buffers
/// of `clusters` clusters.
pub open spec fn parse_index(b: Seq<u8>, clusters: int, k: int) -> u32 {
    le_word(b, 8 * clusters + 4 * k)
}

impl ClusterBuffers {
    /// The bytes of the buffers.
    pub fn to_bytes(&self) -> (out: Vec<u8>)
        ensures
            out@ == cluster_bytes(self.table@, self.indices@),
    {
        let ghost all = cluster_bytes(self.table@, self.indices@);
        let ghost t = self.table@.len() as int;
        let mut out: Vec<u8> = Vec::new();
        let mut c: usize = 0;
        while c < self.table.len()
            invariant
                c <= self.table@.len(),
                t == self.table@.len(),
                all == cluster_bytes(self.table@, self.indices@),
                out@ == all.subrange(0, 8 * c),
            decreases self.table@.len() - c,
        {
            let entry: (u32, u32) = self.table[c];
            push_word(&mut out, entry.0);
            push_word(&mut out, entry.1);
            proof {
                assert((8 * c + 0) / 8 == c && (8 * c + 0) % 8 == 0 && (8 * c + 0) % 4 == 0);
                assert(out@[8 * c + 0] == all[8 * c + 0]);
                assert((8 * c + 1) / 8 == c && (8 * c + 1) % 8 == 1 && (8 * c + 1) % 4 == 1);
                assert(out@[8 * c + 1] == all[8 * c + 1]);
                assert((8 * c + 2) / 8 == c && (8 * c + 2) % 8 == 2 && (8 * c + 2) % 4 == 2);
                assert(out@[8 * c + 2] == all[8 * c + 2]);
                assert((8 * c + 3) / 8 == c && (8 * c + 3) % 8 == 3 && (8 * c + 3) % 4 == 3);
                assert(out@[8 * c + 3] == all[8 * c + 3]);
                assert((8 * c + 4) / 8 == c && (8 * c + 4) % 8 == 4 && (8 * c + 4) % 4 == 0);
                assert(out@[8 * c + 4] == all[8 * c + 4]);
                assert((8 * c + 5) / 8 == c && (8 * c + 5) % 8 == 5 && (8 * c + 5) % 4 == 1);
                assert(out@[8 * c + 5] == all[8 * c + 5]);
                assert((8 * c + 6) / 8 == c && (8 * c + 6) % 8 == 6 && (8 * c + 6) % 4 == 2);
                assert(out@[8 * c + 6] == all[8 * c + 6]);
                assert((8 * c + 7) / 8 == c && (8 * c + 7) % 8 == 7 && (8 * c + 7) % 4 == 3);
                assert(out@[8 * c + 7] == all[8 * c + 7]);
                assert(out@ =~= all.subrange(0, 8 * c + 8));
            }
            c = c + 1;
        }
        let mut k: usize = 0;
        while k < self.indices.len()
            invariant
                k <= self.indices@.len(),
                t == self.table@.len(),
                all == cluster_bytes(self.table@, self.indices@),
                out@ == all.subrange(0, 8 * t + 4 * k),
            decreases self.indices@.len() - k,
        {
            let w: u32 = self.indices[k];
            push_word(&mut out, w);
            proof {
                assert((4 * k + 0) / 4 == k && (4 * k + 0) % 4 == 0);
                assert(out@[8 * t + 4 * k + 0] == all[8 * t + 4 * k + 0]);
                assert((4 * k + 1) / 4 == k && (4 * k + 1) % 4 == 1);
                assert(out@[8 * t + 4 * k + 1] == all[8 * t + 4 * k + 1]);
                assert((4 * k + 2) / 4 == k && (4 * k + 2) % 4 == 2);
                assert(out@[8 * t + 4 * k + 2] == all[8 * t + 4 * k + 2]);
                assert((4 * k + 3) / 4 == k && (4 * k + 3) % 4 == 3);
                assert(out@[8 * t + 4 * k + 3] == all[8 * t + 4 * k + 3]);
                assert(out@ =~= all.subrange(0, 8 * t + 4 * k + 4));
            }
            k = k + 1;
        }
        assert(all.subrange(0, all.len() as int) =~= all);
        out
    }

    /// The entry of cluster `c` in the bytes of cluster buffers; `None`
    /// where the bytes end before it does.
    pub fn read_entry(b: &Vec<u8>, c: usize) -> (r: Option<(u32, u32)>)
        ensures
            r.is_some() == (8 * c + 8 <= b@.len()),
            r matches Some(e) ==> e == parse_entry(b@, c as int),
    {
        if b.len() < 8 || c > (b.len() - 8) / 8 {
            return None;
        }
        Some((read_word(b, 8 * c), read_word(b, 8 * c + 4)))
    }

    /// Light index `k` of the shared list in the bytes of the cluster
    /// buffers of `clusters` clusters; `None` where the bytes end before
    /// it does.
    pub fn read_index(b: &Vec<u8>, clusters: usize, k: usize) -> (r: Option<u32>)
        ensures
            r.is_some() == (8 * clusters + 4 * k + 4 <= b@.len()),
            r matches Some(w) ==> w == parse_index(b@, clusters as int, k as int),
    {
        if b.len() < 4 || clusters > (b.len() - 4) / 8 {
            return None;
        }
        let rest: usize = b.len() - 4 - 8 * clusters;
        if k > rest / 4 {
            return None;
        }
        Some(read_word(b, 8 * clusters + 4 * k))
    }
}

/// What the bytes of cluster buffers hold can be read back: the entry of
/// every cluster and every light index of the shared list.
pub proof fn lemma_cluster_bytes_round_trip(table: Seq<(u32, u32)>, indices: Seq<u32>, at: int)
    ensures
        0 <= at < table.len() ==> parse_entry(cluster_bytes(table, indices), at) == table[at],
        0 <= at < indices.len() ==> parse_index(
            cluster_bytes(table, indices),
            table.len() as int,
            at,
        ) == indices[at],
{
    let b = cluster_bytes(table, indices);
    let t = table.len() as int;
    if 0 <= at < table.len() {
        let e = table[at];
        assert((8 * at + 0) / 8 == at && (8 * at + 0) % 8 == 0 && (8 * at + 0) % 4 == 0);
        assert(b[8 * at + 0] == le_byte(e.0, 0));
        assert((8 * at + 1) / 8 == at && (8 * at + 1) % 8 == 1 && (8 * at + 1) % 4 == 1);
        assert(b[8 * at + 1] == le_byte(e.0, 1));
        assert((8 * at + 2) / 8 == at && (8 * at + 2) % 8 == 2 && (8 * at + 2) % 4 == 2);
        assert(b[8 * at + 2] == le_byte(e.0, 2));
        assert((8 * at + 3) / 8 == at && (8 * at + 3) % 8 == 3 && (8 * at + 3) % 4 == 3);
        assert(b[8 * at + 3] == le_byte(e.0, 3));
        assert((8 * at + 4) / 8 == at && (8 * at + 4) % 8 == 4 && (8 * at + 4) % 4 == 0);
        assert(b[8 * at + 4] == le_byte(e.1, 0));
        assert((8 * at + 5) / 8 == at && (8 * at + 5) % 8 == 5 && (8 * at + 5) % 4 == 1);
        assert(b[8 * at + 5] == le_byte(e.1, 1));
        assert((8 * at + 6) / 8 == at && (8 * at + 6) % 8 == 6 && (8 * at + 6) % 4 == 2);
        assert(b[8 * at + 6] == le_byte(e.1, 2));
        assert((8 * at + 7) / 8 == at && (8 * at + 7) % 8 == 7 && (8 * at + 7) % 4 == 3);
        assert(b[8 * at + 7] == le_byte(e.1, 3));
        assert(b[8 * at + 4] == b[8 * at + 4 + 0]);
        lemma_word_of_bytes(e.0);
        lemma_word_of_bytes(e.1);
    }
    if 0 <= at < indices.len() {
        let w = indices[at];
        assert((4 * at + 0) / 4 == at && (4 * at + 0) % 4 == 0);
        assert(b[8 * t + 4 * at + 0] == le_byte(w, 0));
        assert((4 * at + 1) / 4 == at && (4 * at + 1) % 4 == 1);
        assert(b[8 * t + 4 * at + 1] == le_byte(w, 1));
        assert((4 * at + 2) / 4 == at && (4 * at + 2) % 4 == 2);
        assert(b[8 * t + 4 * at + 2] == le_byte(w, 2));
        assert((4 * at + 3) / 4 == at && (4 * at + 3) % 4 == 3);
        assert(b[8 * t + 4 * at + 3] == le_byte(w, 3));
        lemma_word_of_bytes(w);
    }
}

} // verus!
