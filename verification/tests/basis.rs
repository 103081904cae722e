use ao_basis::basisparser::{basis_name_stem, get_angular_momentum, parse_basis};
use ao_basis::codec::{decode, encode};
use ao_basis::store::LazyBasis;
use ao_basis::{AtomBasis, BasisError, Shell};

fn sample_text() -> &'static str {
    "# cc-pvdz excerpt\n\
     BASIS SET: (4s) -> [2s]\n\
     H    S\n\
     \x20    13.0100000              0.0196850\n\
     \x20     1.9620000              0.1379770\n\
     H    S\n\
     \x20     0.1220000              1.0000000\n\
     #\n\
     BASIS SET: (9s,4p) -> [3s,2p]\n\
     He    S\n\
     \x20    38.3600000              0.0238090\n\
     \x20     5.7700000              0.1548910\n\
     He    P\n\
     \x20     1.2750000E+00           1.0000000\n\
     #\n\
     BASIS SET: (9s,4p) -> [3s,2p]\n\
     Li    S\n\
     \x20 1469.0000000              0.0007660             -0.0001200\n\
     \x20  220.5000000              0.0058920             -0.0009230\n\
     Li    P\n\
     \x20     0.0736100              1.0000000              0.0000000\n\
     END\n"
}

#[test]
fn test_parse_basis() {
    let bas = parse_basis(sample_text()).unwrap();

    assert_eq!(bas[2].symbol, "Li");
}

#[test]
fn test_basis_names() {
    assert_eq!(basis_name_stem("cc-pvdz.nw"), "cc-pvdz");
    assert_eq!(basis_name_stem("sto-3g.1.nw"), "sto-3g");
    assert_eq!(basis_name_stem("aug-cc-pvtz"), "aug-cc-pvtz");
}

#[test]
fn test_parse_sections_and_shapes() {
    let bas = parse_basis(sample_text()).unwrap();
    assert_eq!(bas.len(), 3);
    assert_eq!(bas[0].symbol, "H");
    assert_eq!(bas[1].symbol, "He");

    // H: two S shells, 2x2 then 1x2.
    assert_eq!(bas[0].shells.len(), 2);
    assert_eq!(bas[0].shells[0].am, 0);
    assert_eq!(bas[0].shells[0].rows, 2);
    assert_eq!(bas[0].shells[0].cols, 2);
    assert_eq!(bas[0].shells[0].tokens.len(), 4);
    assert_eq!(bas[0].shells[0].tokens[0], "13.0100000");
    assert_eq!(bas[0].shells[1].rows, 1);

    // He: an S shell and a P shell with an exponent token.
    assert_eq!(bas[1].shells[1].am, 1);
    assert_eq!(bas[1].shells[1].tokens[0], "1.2750000E+00");

    // Li: 2x3 S block.
    assert_eq!(bas[2].shells[0].rows, 2);
    assert_eq!(bas[2].shells[0].cols, 3);
    assert_eq!(bas[2].shells[0].tokens[5], "-0.0009230");
}

#[test]
fn test_unsupported_shell_letter() {
    // A shell letter outside the fixed table must fail, never default.
    let text = "BASIS SET: (4s) -> [2s]\n\
                H    K\n\
                \x20     0.1220000              1.0000000\n\
                END\n";
    assert_eq!(parse_basis(text), Err(BasisError::UnsupportedShellKind));
    assert_eq!(get_angular_momentum('K'), Err(BasisError::UnsupportedShellKind));
    assert_eq!(get_angular_momentum('J'), Err(BasisError::UnsupportedShellKind));
}

#[test]
fn test_angular_momentum_table() {
    assert_eq!(get_angular_momentum('S'), Ok(0));
    assert_eq!(get_angular_momentum('P'), Ok(1));
    assert_eq!(get_angular_momentum('D'), Ok(2));
    assert_eq!(get_angular_momentum('F'), Ok(3));
    assert_eq!(get_angular_momentum('G'), Ok(4));
    assert_eq!(get_angular_momentum('H'), Ok(5));
    assert_eq!(get_angular_momentum('I'), Ok(6));
}

#[test]
fn test_ragged_shell_matrix() {
    // Three tokens on one line, two on the next: 5 tokens over 2 rows.
    let text = "BASIS SET: (4s) -> [2s]\n\
                H    S\n\
                \x20    1.0 2.0 3.0\n\
                \x20    4.0 5.0\n\
                END\n";
    assert_eq!(parse_basis(text), Err(BasisError::RaggedShellMatrix));
}

#[test]
fn test_malformed_number() {
    let text = "BASIS SET: (4s) -> [2s]\n\
                H    S\n\
                \x20    1.0 abc\n\
                END\n";
    assert_eq!(parse_basis(text), Err(BasisError::MalformedNumber));

    // An exponent without a sign is outside the accepted float shape.
    let text2 = "BASIS SET: (4s) -> [2s]\n\
                 H    S\n\
                 \x20    1.0E5 2.0\n\
                 END\n";
    assert_eq!(parse_basis(text2), Err(BasisError::MalformedNumber));
}

#[test]
fn test_empty_and_unterminated_sections() {
    // A section with no shell block yields no entry.
    let text = "BASIS SET: (4s) -> [2s]\n\
                END\n";
    assert_eq!(parse_basis(text).unwrap().len(), 0);

    // A section with no terminator line is not a section at all.
    let text2 = "BASIS SET: (4s) -> [2s]\n\
                 H    S\n\
                 \x20    1.0 2.0\n";
    assert_eq!(parse_basis(text2).unwrap().len(), 0);
}

#[test]
fn test_duplicate_sections_kept() {
    let text = "BASIS SET: (4s) -> [2s]\n\
                H    S\n\
                \x20    1.5 2.5\n\
                #\n\
                BASIS SET: (4s) -> [2s]\n\
                H    S\n\
                \x20    3.5 4.5\n\
                END\n";
    let bas = parse_basis(text).unwrap();
    assert_eq!(bas.len(), 2);
    assert_eq!(bas[0].symbol, "H");
    assert_eq!(bas[1].symbol, "H");
    assert_eq!(bas[0].shells[0].tokens[0], "1.5");
    assert_eq!(bas[1].shells[0].tokens[0], "3.5");
}

fn sample_atom() -> AtomBasis {
    AtomBasis {
        basis: vec![
            Shell {
                am: 0,
                rows: 2,
                cols: 2,
                data: vec![
                    13.01_f64.to_bits(),
                    0.019685_f64.to_bits(),
                    1.962_f64.to_bits(),
                    0.137977_f64.to_bits(),
                ],
            },
            Shell { am: 1, rows: 1, cols: 2, data: vec![0.122_f64.to_bits(), 1.0_f64.to_bits()] },
        ],
    }
}

#[test]
fn test_codec_round_trip() {
    let x = sample_atom();
    let bytes = encode(&x);
    let y = decode(&bytes).unwrap();
    assert_eq!(x, y);

    // The empty basis round-trips too.
    let e = AtomBasis { basis: vec![] };
    let be = encode(&e);
    assert_eq!(be.len(), 8);
    assert_eq!(decode(&be).unwrap(), e);
}

#[test]
fn test_codec_layout() {
    // One 1x1 shell: count, then code byte, extents, one value.
    let x = AtomBasis {
        basis: vec![Shell { am: 2, rows: 1, cols: 1, data: vec![1.0_f64.to_bits()] }],
    };
    let bytes = encode(&x);
    assert_eq!(bytes.len(), 8 + 1 + 8 + 8 + 8);
    assert_eq!(&bytes[0..8], &1u64.to_le_bytes());
    assert_eq!(bytes[8], 2);
    assert_eq!(&bytes[9..17], &1u64.to_le_bytes());
    assert_eq!(&bytes[17..25], &1u64.to_le_bytes());
    assert_eq!(&bytes[25..33], &1.0_f64.to_bits().to_le_bytes());
}

#[test]
fn test_decode_corrupt() {
    let x = sample_atom();
    let mut bytes = encode(&x);

    // Trailing byte.
    bytes.push(0);
    assert_eq!(decode(&bytes), Err(BasisError::CorruptEncoding));
    bytes.pop();

    // Truncation.
    bytes.pop();
    assert_eq!(decode(&bytes), Err(BasisError::CorruptEncoding));

    // Too short for a shell count at all.
    assert_eq!(decode(&[1, 2, 3]), Err(BasisError::CorruptEncoding));

    // A shell code outside the table.
    let y = AtomBasis { basis: vec![Shell { am: 0, rows: 0, cols: 0, data: vec![] }] };
    let mut by = encode(&y);
    by[8] = 7;
    assert_eq!(decode(&by), Err(BasisError::CorruptEncoding));
}

#[test]
fn test_store_lazy_load_once() {
    let mut store = LazyBasis::new(vec![
        ("H".to_string(), "basis/H".to_string()),
        ("O".to_string(), "basis/O".to_string()),
    ]);

    // An atom outside the basis is a fatal lookup error.
    assert_eq!(store.get("He").err(), Some(BasisError::UnknownAtom));
    assert_eq!(store.load("He", &[]).err(), Some(BasisError::UnknownAtom));

    // Before any load, the slot reports its file path and no value.
    assert_eq!(store.path_to_load("O").map(|p| p.as_str()), Some("basis/O"));
    assert!(store.get("O").unwrap().is_none());

    let x = sample_atom();
    let bytes = encode(&x);
    store.load("O", &bytes).unwrap();
    assert!(store.path_to_load("O").is_none());
    assert_eq!(store.get("O").unwrap(), Some(&x));

    // A second load never re-decodes: even garbage bytes leave the
    // cached value untouched and succeed.
    store.load("O", &[9, 9, 9]).unwrap();
    assert_eq!(store.get("O").unwrap(), Some(&x));

    // The untouched slot still behaves independently.
    assert!(store.get("H").unwrap().is_none());
    assert_eq!(store.load("H", &[1]), Err(BasisError::CorruptEncoding));
}

#[test]
fn test_persist_round_trip() {
    // Parse, bind tokens to doubles, encode each atom, load everything
    // into a fresh store, and compare what comes back.
    let bas = parse_basis(sample_text()).unwrap();
    let mut atoms: Vec<(String, AtomBasis)> = Vec::new();
    for atom in &bas {
        let mut shells = Vec::new();
        for s in &atom.shells {
            let flat: Vec<u64> =
                s.tokens.iter().map(|t| t.parse::<f64>().unwrap().to_bits()).collect();
            shells.push(Shell::build(s.am, s.rows, flat).unwrap());
        }
        atoms.push((atom.symbol.clone(), AtomBasis { basis: shells }));
    }

    let entries: Vec<(String, String)> =
        atoms.iter().map(|(sym, _)| (sym.clone(), format!("basis/{sym}"))).collect();
    let mut store = LazyBasis::new(entries);
    for (sym, basis) in &atoms {
        store.load(sym, &encode(basis)).unwrap();
    }
    for (sym, basis) in &atoms {
        assert_eq!(store.get(sym).unwrap(), Some(basis));
    }
}

#[test]
fn test_shell_build() {
    let ok = Shell::build(0, 2, vec![1, 2, 3, 4]).unwrap();
    assert_eq!(ok.rows, 2);
    assert_eq!(ok.cols, 2);
    assert_eq!(ok.data, vec![1, 2, 3, 4]);

    // Five values cannot fill two rows exactly: refused, not truncated.
    assert_eq!(Shell::build(0, 2, vec![1, 2, 3, 4, 5]), Err(BasisError::RaggedShellMatrix));
}

#[test]
fn test_unterminated_header_merges_into_body() {
    // A second header before the first section's terminator is plain
    // body text: its blocks join the first section, whose symbol comes
    // from the first block.
    let text = "BASIS SET: (4s) -> [2s]\n\
                H    S\n\
                \x20   1.0 2.0\n\
                BASIS SET: (4s) -> [2s]\n\
                O    S\n\
                \x20   3.0 4.0\n\
                END\n";
    let bas = parse_basis(text).unwrap();
    assert_eq!(bas.len(), 1);
    assert_eq!(bas[0].symbol, "H");
    assert_eq!(bas[0].shells.len(), 2);
    assert_eq!(bas[0].shells[1].tokens, vec!["3.0", "4.0"]);
}

#[test]
fn test_float_token_edges() {
    let ok = "BASIS SET: (4s) -> [2s]\n\
              H    S\n\
              \x20   -1.0E-02 0.5\n\
              END\n";
    let bas = parse_basis(ok).unwrap();
    assert_eq!(bas[0].shells[0].tokens[0], "-1.0E-02");

    // A float needs digits on both sides of the dot.
    let bad = "BASIS SET: (4s) -> [2s]\n\
               H    S\n\
               \x20   1. 2.0\n\
               END\n";
    assert_eq!(parse_basis(bad), Err(BasisError::MalformedNumber));
}

#[test]
fn test_name_stem_edges() {
    assert_eq!(basis_name_stem(".hidden"), "");
    assert_eq!(basis_name_stem(""), "");
}
