use beam_xref::beam::{parse_module, ArtifactError};
use beam_xref::types::{Atom, Interner};

fn be32(v: u32) -> [u8; 4] {
    v.to_be_bytes()
}

fn mk_chunk(id: &[u8; 4], data: &[u8]) -> Vec<u8> {
    let mut out = Vec::new();
    out.extend_from_slice(id);
    out.extend_from_slice(&be32(data.len() as u32));
    out.extend_from_slice(data);
    let pad = (4 - data.len() % 4) % 4;
    for _ in 0..pad {
        out.push(0);
    }
    out
}

fn mk_beam(chunks: &[Vec<u8>]) -> Vec<u8> {
    let mut payload = Vec::new();
    payload.extend_from_slice(b"BEAM");
    for c in chunks {
        payload.extend_from_slice(c);
    }
    let mut out = Vec::new();
    out.extend_from_slice(b"FOR1");
    out.extend_from_slice(&be32(payload.len() as u32));
    out.extend_from_slice(&payload);
    out
}

fn mk_atom_chunk(names: &[&str]) -> Vec<u8> {
    let mut data = Vec::new();
    data.extend_from_slice(&be32(names.len() as u32));
    for n in names {
        data.push(n.len() as u8);
        data.extend_from_slice(n.as_bytes());
    }
    mk_chunk(b"Atom", &data)
}

fn mk_atu8_chunk(names: &[&str]) -> Vec<u8> {
    let mut data = Vec::new();
    data.extend_from_slice(&be32(names.len() as u32));
    for n in names {
        data.push(n.len() as u8);
        data.extend_from_slice(n.as_bytes());
    }
    mk_chunk(b"AtU8", &data)
}

fn mk_expt_chunk(entries: &[(u32, u32)]) -> Vec<u8> {
    let mut data = Vec::new();
    data.extend_from_slice(&be32(entries.len() as u32));
    for (f, a) in entries {
        data.extend_from_slice(&be32(*f));
        data.extend_from_slice(&be32(*a));
        data.extend_from_slice(&be32(0));
    }
    mk_chunk(b"ExpT", &data)
}

fn mk_impt_chunk(entries: &[(u32, u32, u32)]) -> Vec<u8> {
    let mut data = Vec::new();
    data.extend_from_slice(&be32(entries.len() as u32));
    for (m, f, a) in entries {
        data.extend_from_slice(&be32(*m));
        data.extend_from_slice(&be32(*f));
        data.extend_from_slice(&be32(*a));
    }
    mk_chunk(b"ImpT", &data)
}

fn simple_beam() -> Vec<u8> {
    // atoms: 1=mymod 2=lists 3=map 4=foo
    mk_beam(&[
        mk_atom_chunk(&["mymod", "lists", "map", "foo"]),
        mk_expt_chunk(&[(4, 1)]),
        mk_impt_chunk(&[(2, 3, 2)]),
    ])
}

#[test]
fn decodes_simple_module() {
    let sm = parse_module(&simple_beam()).unwrap();
    assert_eq!(sm.name, "mymod");
    assert_eq!(sm.exports.len(), 1);
    assert_eq!(sm.exports[0].0, "foo");
    assert_eq!(sm.exports[0].1, 1);
    assert_eq!(sm.imports.len(), 1);
    assert_eq!(sm.imports[0].0, "lists");
    assert_eq!(sm.imports[0].1, vec![(String::from("map"), 2)]);
}

#[test]
fn decodes_atu8_atoms() {
    let b = mk_beam(&[
        mk_atu8_chunk(&["m\u{00e9}", "dep", "f"]),
        mk_expt_chunk(&[]),
        mk_impt_chunk(&[(2, 3, 0)]),
    ]);
    let sm = parse_module(&b).unwrap();
    assert_eq!(sm.name, "m\u{00e9}");
    assert_eq!(sm.imports[0].0, "dep");
    assert_eq!(sm.imports[0].1, vec![(String::from("f"), 0)]);
}

#[test]
fn groups_imports_by_module_in_first_appearance_order() {
    // atoms: 1=m 2=a 3=b 4=f 5=g
    let b = mk_beam(&[
        mk_atom_chunk(&["m", "a", "b", "f", "g"]),
        mk_expt_chunk(&[]),
        mk_impt_chunk(&[(2, 4, 1), (3, 4, 2), (2, 5, 3)]),
    ]);
    let sm = parse_module(&b).unwrap();
    assert_eq!(sm.imports.len(), 2);
    assert_eq!(sm.imports[0].0, "a");
    assert_eq!(
        sm.imports[0].1,
        vec![(String::from("f"), 1), (String::from("g"), 3)]
    );
    assert_eq!(sm.imports[1].0, "b");
    assert_eq!(sm.imports[1].1, vec![(String::from("f"), 2)]);
}

#[test]
fn keeps_duplicate_exports() {
    let b = mk_beam(&[
        mk_atom_chunk(&["m", "f"]),
        mk_expt_chunk(&[(2, 1), (2, 1)]),
        mk_impt_chunk(&[]),
    ]);
    let sm = parse_module(&b).unwrap();
    assert_eq!(sm.exports.len(), 2);
}

#[test]
fn ignores_unknown_chunks() {
    let b = mk_beam(&[
        mk_chunk(b"Code", &[1, 2, 3, 4, 5]),
        mk_atom_chunk(&["m"]),
        mk_expt_chunk(&[]),
        mk_chunk(b"LocT", &[9]),
        mk_impt_chunk(&[]),
    ]);
    let sm = parse_module(&b).unwrap();
    assert_eq!(sm.name, "m");
}

#[test]
fn last_atom_chunk_wins() {
    let b = mk_beam(&[
        mk_atom_chunk(&["old"]),
        mk_atom_chunk(&["new"]),
        mk_expt_chunk(&[]),
        mk_impt_chunk(&[]),
    ]);
    let sm = parse_module(&b).unwrap();
    assert_eq!(sm.name, "new");
}

#[test]
fn rejects_bad_magic() {
    let mut b = simple_beam();
    b[0] = b'X';
    assert_eq!(parse_module(&b).unwrap_err(), ArtifactError::BadHeader);
}

#[test]
fn rejects_short_file() {
    let b = vec![0u8; 7];
    assert_eq!(parse_module(&b).unwrap_err(), ArtifactError::BadHeader);
}

#[test]
fn rejects_payload_overrun() {
    let mut b = simple_beam();
    // announce a payload longer than the file
    let huge = be32(0xFFFF);
    b[4..8].copy_from_slice(&huge);
    assert_eq!(parse_module(&b).unwrap_err(), ArtifactError::BadHeader);
}

#[test]
fn rejects_truncated_chunk() {
    let mut b = mk_beam(&[mk_atom_chunk(&["m"])]);
    // enlarge the chunk's announced size past the payload
    b[16..20].copy_from_slice(&be32(1000));
    assert_eq!(parse_module(&b).unwrap_err(), ArtifactError::BadChunk);
}

#[test]
fn rejects_missing_atom_chunk() {
    let b = mk_beam(&[mk_expt_chunk(&[]), mk_impt_chunk(&[])]);
    assert_eq!(
        parse_module(&b).unwrap_err(),
        ArtifactError::MissingAtomChunk
    );
}

#[test]
fn rejects_missing_export_chunk() {
    let b = mk_beam(&[mk_atom_chunk(&["m"]), mk_impt_chunk(&[])]);
    assert_eq!(
        parse_module(&b).unwrap_err(),
        ArtifactError::MissingExportChunk
    );
}

#[test]
fn rejects_missing_import_chunk() {
    let b = mk_beam(&[mk_atom_chunk(&["m"]), mk_expt_chunk(&[])]);
    assert_eq!(
        parse_module(&b).unwrap_err(),
        ArtifactError::MissingImportChunk
    );
}

#[test]
fn rejects_empty_atom_table() {
    let b = mk_beam(&[mk_atom_chunk(&[]), mk_expt_chunk(&[]), mk_impt_chunk(&[])]);
    assert_eq!(
        parse_module(&b).unwrap_err(),
        ArtifactError::EmptyAtomTable
    );
}

#[test]
fn rejects_atom_index_out_of_range() {
    let b = mk_beam(&[
        mk_atom_chunk(&["m"]),
        mk_expt_chunk(&[(9, 0)]),
        mk_impt_chunk(&[]),
    ]);
    assert_eq!(parse_module(&b).unwrap_err(), ArtifactError::BadAtomIndex);
}

#[test]
fn rejects_atom_index_zero() {
    let b = mk_beam(&[
        mk_atom_chunk(&["m"]),
        mk_expt_chunk(&[]),
        mk_impt_chunk(&[(0, 1, 1)]),
    ]);
    assert_eq!(parse_module(&b).unwrap_err(), ArtifactError::BadAtomIndex);
}

#[test]
fn rejects_truncated_atom_table() {
    // count says two atoms but only one is present
    let mut data = Vec::new();
    data.extend_from_slice(&be32(2));
    data.push(1);
    data.push(b'm');
    let b = mk_beam(&[
        mk_chunk(b"Atom", &data),
        mk_expt_chunk(&[]),
        mk_impt_chunk(&[]),
    ]);
    assert_eq!(parse_module(&b).unwrap_err(), ArtifactError::BadAtomTable);
}

#[test]
fn rejects_truncated_export_table() {
    let mut data = Vec::new();
    data.extend_from_slice(&be32(1));
    data.extend_from_slice(&be32(1)); // only one field of three
    let b = mk_beam(&[
        mk_atom_chunk(&["m"]),
        mk_chunk(b"ExpT", &data),
        mk_impt_chunk(&[]),
    ]);
    assert_eq!(
        parse_module(&b).unwrap_err(),
        ArtifactError::BadExportTable
    );
}

#[test]
fn rejects_truncated_import_table() {
    let mut data = Vec::new();
    data.extend_from_slice(&be32(3));
    let b = mk_beam(&[
        mk_atom_chunk(&["m"]),
        mk_expt_chunk(&[]),
        mk_chunk(b"ImpT", &data),
    ]);
    assert_eq!(
        parse_module(&b).unwrap_err(),
        ArtifactError::BadImportTable
    );
}

#[test]
fn rejects_non_utf8_atom_name() {
    let mut data = Vec::new();
    data.extend_from_slice(&be32(1));
    data.push(2);
    data.push(0xFF);
    data.push(0xFE);
    let b = mk_beam(&[
        mk_chunk(b"Atom", &data),
        mk_expt_chunk(&[]),
        mk_impt_chunk(&[]),
    ]);
    assert_eq!(
        parse_module(&b).unwrap_err(),
        ArtifactError::AtomNameNotUtf8
    );
}

#[test]
fn intern_is_idempotent() {
    let mut interner = Interner::new();
    let a = Atom::intern(&mut interner, "kernel");
    let b = Atom::intern(&mut interner, "stdlib");
    let a2 = Atom::intern(&mut interner, "kernel");
    let b2 = Atom::intern(&mut interner, "stdlib");
    assert_eq!(a, a2);
    assert_eq!(b, b2);
    assert_ne!(a, b);
    assert_eq!(interner.len(), 2);
}

#[test]
fn intern_resolve_round_trips() {
    let mut interner = Interner::new();
    let a = Atom::intern(&mut interner, "some_name");
    let b = Atom::intern(&mut interner, "");
    assert_eq!(a.resolve(&interner).unwrap(), "some_name");
    assert_eq!(b.resolve(&interner).unwrap(), "");
}

#[test]
fn resolve_of_foreign_atom_is_none() {
    let interner = Interner::new();
    assert!(Atom(42).resolve(&interner).is_none());
}
