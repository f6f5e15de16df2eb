use navpath::snapshot::alt_pack::{pack_alt, packed_bytes, record_bytes, PackedAlt, Unknown, EXCEPTION_BYTES};
use navpath::snapshot::manifest::{
    align_up, pack_coord, unpack_coord, Manifest, ManifestError, ALT_SATURATED, ALT_SECTION_ALIGN, ALT_UNREACHABLE,
    MANIFEST_SIZE,
};
use navpath::snapshot::reader::{Snapshot, SnapshotError, WalkStep};
use navpath::snapshot::residency::{pieces_of, ranges_of, ByteRange, Part};
use navpath::snapshot::writer::{
    write_snapshot, write_snapshot_v8, AltFormat, SnapshotSections, WriteOptions, WriterError,
};

#[test]
fn roundtrip_exact_and_specials() {
    let landmarks = 2;
    let nodes = 21;
    let s = 2 * landmarks;
    let mut tab = vec![0u16; nodes * s];
    for u in 0..nodes {
        tab[u * s] = 1000 + u as u16;
        tab[u * s + 1] = if u % 5 == 0 { ALT_UNREACHABLE } else { 7 };
        tab[u * s + 2] = if u == 3 { 4000 } else { 10 };
        tab[u * s + 3] = if u == 4 { ALT_SATURATED } else { 20 };
    }
    let (packed, exc) = pack_alt(&tab, nodes, landmarks);
    assert_eq!(exc, 1);
    assert_eq!(packed.len(), packed_bytes(nodes, landmarks) + EXCEPTION_BYTES);
    let p = PackedAlt::from_section(&packed, nodes, landmarks);
    let mut row = vec![0u16; s];
    for u in 0..nodes {
        p.decode_row(u, Unknown::fwd_node(), &mut row);
        assert_eq!(row[0], tab[u * s]);
        assert_eq!(row[1], tab[u * s + 1]);
        if u == 3 {
            assert_eq!(row[2], Unknown::fwd_node().even);
        } else {
            assert_eq!(row[2], tab[u * s + 2]);
        }
        assert_eq!(row[3], tab[u * s + 3]);
        p.decode_row_exact(u, &mut row);
        assert_eq!(&row[..], &tab[u * s..(u + 1) * s], "exact decode of node {u}");
    }
}

#[test]
fn substituted_rows_only_weaken_bounds() {
    // Two nodes of one cluster, so far apart that one offset does not hold both values.
    let tab: Vec<u16> = vec![10, 900, 5000, 20];
    let (packed, exc) = pack_alt(&tab, 2, 1);
    assert_eq!(exc, 2);
    let p = PackedAlt::from_section(&packed, 2, 1);
    let mut row = vec![0u16; 2];
    p.decode_row(0, Unknown::rev_node(), &mut row);
    assert_eq!(row, vec![10, ALT_SATURATED]);
    p.decode_row(1, Unknown::goal(), &mut row);
    assert_eq!(row, vec![0, 20]);
    p.decode_row(0, Unknown::anchor(), &mut row);
    assert_eq!(row, vec![10, 0]);
    p.decode_row_exact(0, &mut row);
    assert_eq!(row, vec![10, 900]);
}

fn line<'a>(
    coords: &'a [u32],
    walk_offsets: &'a [u32],
    walk_dst: &'a [u32],
    walk_diag: &'a [u8],
    comp: &'a [u16],
    landmarks: &'a [u32],
    lm_tab: &'a [u16],
) -> SnapshotSections<'a> {
    SnapshotSections {
        coords_packed: coords,
        walk_offsets,
        walk_dst,
        walk_diag,
        comp,
        walk_components: 1,
        macro_src: &[],
        macro_dst: &[],
        macro_w: &[],
        macro_kind_first: &[],
        macro_id_first: &[],
        macro_meta_offs: &[],
        macro_meta_lens: &[],
        macro_meta_blob: b"{}",
        req_tags: &[],
        landmarks,
        lm_tab,
        fairy_nodes: &[],
        fairy_cost_ms: &[],
        fairy_meta_offs: &[],
        fairy_meta_lens: &[],
        fairy_meta_blob: &[],
    }
}

#[test]
fn v8_roundtrip() {
    let coords = [pack_coord(100, 50, 0), pack_coord(101, 50, 0), pack_coord(102, 50, 0)];
    let walk_offsets = [0u32, 2, 4, 6];
    let walk_dst = [1u32, 2, 0, 2, 1, 0];
    let walk_diag = [0b0010_0010u8];
    let comp = [0u16, 0, 0];
    let lm_ids = [0u32, 2];
    let lm_tab: [u16; 12] = [0, 0, 5, 5, 2, 2, ALT_UNREACHABLE, 3, 5, 5, 0, 0];
    let meta_blob = b"{}".to_vec();
    let fairy_blob = br#"{"code":"ALS"}"#.to_vec();
    let macro_w = [3.5f32.to_bits()];
    let fairy_cost = [600.0f32.to_bits()];
    let fairy_lens = [fairy_blob.len() as u32];
    let mut s = line(&coords, &walk_offsets, &walk_dst, &walk_diag, &comp, &lm_ids, &lm_tab);
    s.macro_src = &[0];
    s.macro_dst = &[2];
    s.macro_w = &macro_w;
    s.macro_kind_first = &[2];
    s.macro_id_first = &[42];
    s.macro_meta_offs = &[0];
    s.macro_meta_lens = &[2];
    s.macro_meta_blob = &meta_blob;
    s.req_tags = &[7, 8, 9, 10];
    s.fairy_nodes = &[0];
    s.fairy_cost_ms = &fairy_cost;
    s.fairy_meta_offs = &[0];
    s.fairy_meta_lens = &fairy_lens;
    s.fairy_meta_blob = &fairy_blob;
    let (bytes, res) = write_snapshot_v8(&s).expect("write v8");

    let snap = Snapshot::open(bytes.clone()).expect("open v8");
    let c = snap.counts();
    assert_eq!(c.nodes, 3);
    assert_eq!(c.walk_edges, 6);
    assert_eq!(c.macro_edges, 1);
    assert_eq!(c.landmarks, 2);
    assert_eq!(c.walk_components, 1);

    assert_eq!(snap.coords_packed(), &coords);
    assert_eq!(snap.node_coord(1), (101, 50, 0));
    assert_eq!(snap.find_node(102, 50, 0), Some(2));
    assert_eq!(snap.find_node(103, 50, 0), None);

    assert_eq!(snap.walk_offsets(), &walk_offsets);
    assert_eq!(snap.walk_dst(), &walk_dst);
    let weight = |u: u32, v: u32| snap.walk_edge_weight(u, v).map(|w| f32::from_bits(w.cost_bits()));
    assert_eq!(weight(0, 1), Some(300.0));
    let d = weight(0, 2).unwrap();
    assert!((d - 424.26407).abs() < 1e-3);
    assert_eq!(d, 2f32.sqrt() * 300.0);
    assert_eq!(weight(1, 1), None);
    assert_eq!(snap.walk_edge_weight(0, 2), Some(WalkStep::Diagonal));
    assert_eq!(WalkStep::Diagonal.cost_ms(), d.round() as u32);

    assert_eq!(snap.comp_ids(), &comp);
    assert_eq!(snap.macro_src(), &[0]);
    assert_eq!(snap.macro_dst(), &[2]);
    assert_eq!(snap.macro_w(), &[3.5f32.to_bits()]);
    assert_eq!(snap.macro_kind_first(), &[2]);
    assert_eq!(snap.macro_id_first(), &[42]);
    assert_eq!(snap.macro_meta_at(0).unwrap(), b"{}");
    assert_eq!(snap.req_tags(), &[7, 8, 9, 10]);
    assert_eq!(snap.landmarks(), &lm_ids);
    assert_eq!(snap.lm_tab(), &lm_tab);
    assert_eq!(snap.fairy_nodes(), &[0]);
    assert_eq!(snap.fairy_cost_ms(), &[600.0f32.to_bits()]);
    assert_eq!(snap.fairy_meta_at(0).unwrap(), &fairy_blob[..]);

    assert_eq!(&bytes[bytes.len() - 32..], &res.hash);
    let mut hasher = blake3::Hasher::new();
    hasher.update(&bytes[..bytes.len() - 32]);
    assert_eq!(hasher.finalize().as_bytes(), &res.hash);
    let hex: String = res.hash.iter().map(|b| format!("{b:02x}")).collect();
    assert_eq!(snap.tail_hash_hex().as_deref(), Some(hex.as_str()));
    assert_eq!(snap.manifest().off_lm_tab % ALT_SECTION_ALIGN, 0);
    assert_eq!(snap.manifest().off_fairy_nodes % ALT_SECTION_ALIGN, 0);
    assert!(snap.lm_packed().is_none());
}

#[test]
fn packed_alt_roundtrip() {
    let n = 40usize;
    let l = 16usize;
    let coords: Vec<u32> = (0..n as i32).map(|i| pack_coord(200 + i, 70, 0)).collect();
    let mut walk_offsets = vec![0u32];
    let mut walk_dst = Vec::new();
    for i in 0..n as u32 {
        if i > 0 {
            walk_dst.push(i - 1);
        }
        if i + 1 < n as u32 {
            walk_dst.push(i + 1);
        }
        walk_offsets.push(walk_dst.len() as u32);
    }
    let walk_diag = vec![0u8; (walk_dst.len() + 7) / 8];
    let comp = vec![0u16; n];
    let lm_ids: Vec<u32> = (0..l as u32).collect();
    let mut lm_tab = vec![0u16; n * 2 * l];
    for u in 0..n {
        for lane in 0..2 * l {
            lm_tab[u * 2 * l + lane] = match (u + lane) % 11 {
                0 => ALT_UNREACHABLE,
                1 => ALT_SATURATED,
                _ => (100 + u + lane) as u16,
            };
        }
    }
    lm_tab[5 * 2 * l + 3] = 9000;
    let s = line(&coords, &walk_offsets, &walk_dst, &walk_diag, &comp, &lm_ids, &lm_tab);
    let (bytes, _) = write_snapshot(&s, &WriteOptions { alt_format: AltFormat::Packed }).expect("write packed");
    let snap = Snapshot::open(bytes).expect("open packed");
    assert!(snap.lm_tab().is_empty());
    assert!(snap.manifest().alt_exceptions >= 1);
    let section = snap.lm_packed().expect("packed section");
    let p = PackedAlt::from_section(section, n, l);
    let mut row = vec![0u16; 2 * l];
    for u in 0..n {
        p.decode_row_exact(u, &mut row);
        assert_eq!(&row[..], &lm_tab[u * 2 * l..(u + 1) * 2 * l], "node {u}");
    }
    for (u, &k) in coords.iter().enumerate() {
        let (x, y, pl) = unpack_coord(k);
        assert_eq!(snap.find_node(x, y, pl), Some(u as u32));
    }
}

fn small() -> Vec<u8> {
    let coords = [pack_coord(1, 1, 0), pack_coord(2, 1, 0)];
    let s = line(&coords, &[0, 1, 2], &[1, 0], &[0], &[0, 0], &[], &[]);
    write_snapshot_v8(&s).expect("write").0
}

#[test]
fn images_that_are_broken_are_refused() {
    let good = small();
    assert!(Snapshot::open(good.clone()).is_ok());
    assert!(matches!(
        Snapshot::open(good[..10].to_vec()),
        Err(SnapshotError::Manifest(ManifestError::HeaderTooSmall))
    ));
    let mut bad = good.clone();
    bad[0] ^= 1;
    assert!(matches!(Snapshot::open(bad), Err(SnapshotError::Manifest(ManifestError::BadMagic))));
    let mut bad = good.clone();
    bad[4] = 77;
    assert!(matches!(
        Snapshot::open(bad),
        Err(SnapshotError::Manifest(ManifestError::UnsupportedVersion(_)))
    ));
    assert!(matches!(
        Snapshot::open(good[..MANIFEST_SIZE].to_vec()),
        Err(SnapshotError::Manifest(ManifestError::OutOfBounds(_)))
    ));
    let head = Manifest::parse(&good).unwrap();
    let mut bad = good.clone();
    let at = head.off_walk_dst as usize;
    bad[at] = 9;
    assert!(matches!(
        Snapshot::open(bad),
        Err(SnapshotError::Manifest(ManifestError::Invalid(_)))
    ));
    let mut off = head;
    off.off_coords += 1;
    assert!(matches!(off.validate_layout(good.len()), Err(ManifestError::Misaligned(_))));
    let mut off = head;
    off.off_macro_src = 257;
    assert!(matches!(off.validate_layout(good.len()), Err(ManifestError::Misaligned("macro_src"))));
    let mut off = head;
    off.off_fairy_meta_lens = 257;
    assert!(matches!(off.validate_layout(good.len()), Err(ManifestError::Misaligned("fairy_meta_lens"))));
    // Metadata is text: it may start anywhere.
    let mut off = head;
    off.off_fairy_meta_blob = 257;
    assert_eq!(off.validate_layout(good.len()), Ok(()));
}

#[test]
fn sections_of_unlike_lengths_are_refused() {
    let coords = [pack_coord(1, 1, 0), pack_coord(2, 1, 0)];
    let s = line(&coords, &[0, 1], &[1, 0], &[0], &[0, 0], &[], &[]);
    assert!(matches!(write_snapshot_v8(&s), Err(WriterError::LengthMismatch(_))));
}

#[test]
fn sizes_and_offsets() {
    assert_eq!(align_up(0), 0);
    assert_eq!(align_up(1), 64);
    assert_eq!(align_up(64), 64);
    assert_eq!(record_bytes(2), (2 + 16) * 4);
    assert_eq!(packed_bytes(21, 2), 2 * record_bytes(2));
    assert_eq!(unpack_coord(pack_coord(32767, 3, 3)), (32767, 3, 3));
    assert_eq!(ManifestError::BadMagic.message().is_empty(), false);
}

#[test]
fn parts_of_a_file() {
    let tables = ByteRange { off: 100, len: 50 };
    assert_eq!(ranges_of(Part::All, 400, tables), vec![ByteRange { off: 0, len: 400 }]);
    assert_eq!(
        ranges_of(Part::Head, 400, tables),
        vec![ByteRange { off: 0, len: 100 }, ByteRange { off: 150, len: 250 }]
    );
    assert_eq!(ranges_of(Part::Head, 150, tables), vec![ByteRange { off: 0, len: 100 }]);
    assert_eq!(ranges_of(Part::Tables, 400, tables), vec![tables]);
    assert_eq!(ranges_of(Part::Tables, 120, tables), vec![ByteRange { off: 100, len: 20 }]);
}

#[test]
fn pieces_of_a_range() {
    let mib = 1usize << 20;
    assert!(pieces_of(ByteRange { off: 5, len: 0 }, 4).is_empty());
    assert_eq!(pieces_of(ByteRange { off: 5, len: 7 }, 4), vec![ByteRange { off: 5, len: 7 }]);
    let cut = pieces_of(ByteRange { off: 0, len: 33 * mib }, 4);
    assert_eq!(
        cut,
        vec![
            ByteRange { off: 0, len: 10 * mib },
            ByteRange { off: 10 * mib, len: 10 * mib },
            ByteRange { off: 20 * mib, len: 10 * mib },
            ByteRange { off: 30 * mib, len: 3 * mib },
        ]
    );
}
