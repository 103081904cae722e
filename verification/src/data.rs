//! Core data model: per-atom shell lists with rectangular coefficient
//! matrices, and the error taxonomy shared by the parser, the codec and
//! the lazy store.
//!
//! Coefficient values are carried as the 64-bit patterns of IEEE-754
//! doubles (`u64`); binding those patterns to machine floats is left to
//! the host layer around this library.

use vstd::prelude::*;

verus! {

/// Every failure the library can report. Each operation's contract says
/// exactly which variant comes back on which input.
#[derive(Debug, Clone, Copy, PartialEq, Eq, Structural)]
pub enum BasisError {
    /// A directory or file could not be read or written (host layer only).
    IOError,
    /// A numeric token in the source text is not a valid float.
    MalformedNumber,
    /// A shell block's token count is not divisible by its line count.
    RaggedShellMatrix,
    /// A shell letter outside the fixed angular-momentum table.
    UnsupportedShellKind,
    /// A binary payload is truncated or structurally inconsistent.
    CorruptEncoding,
    /// A requested element symbol is absent from the loaded basis.
    UnknownAtom,
}

/// Mathematical model of one shell: an angular-momentum code and a
/// rectangular row-major matrix of 64-bit float patterns.
pub ghost struct ShellV {
    pub am: int,
    pub rows: nat,
    pub cols: nat,
    pub data: Seq<u64>,
}

/// A shell model is well formed when its code is in the fixed table's
/// range, its extents fit the machine, and the matrix is exactly
/// rectangular: `rows * cols` equals the number of stored values.
pub open spec fn wf_shell_v(s: ShellV) -> bool {
    &&& 0 <= s.am <= 6
    &&& s.rows <= usize::MAX
    &&& s.cols <= usize::MAX
    &&& s.rows * s.cols == s.data.len()
}

pub open spec fn wf_basis_v(b: Seq<ShellV>) -> bool {
    forall|i: int| 0 <= i < b.len() ==> wf_shell_v(#[trigger] b[i])
}

/// One angular-momentum shell: code and row-major coefficient matrix.
#[derive(Debug, Clone, PartialEq)]
pub struct Shell {
    pub am: i32,
    pub rows: usize,
    pub cols: usize,
    pub data: Vec<u64>,
}

impl View for Shell {
    type V = ShellV;

    open spec fn view(&self) -> ShellV {
        ShellV {
            am: self.am as int,
            rows: self.rows as nat,
            cols: self.cols as nat,
            data: self.data@,
        }
    }
}

impl Shell {
    pub open spec fn wf(&self) -> bool {
        wf_shell_v(self@)
    }

    /// The shell matrix builder: arranges a flat value sequence into a
    /// matrix of `height` rows, refusing any count that does not divide
    /// exactly (no truncation, no padding).
    pub fn build(am: i32, height: usize, flat: Vec<u64>) -> (r: Result<Shell, BasisError>)
        requires
            0 <= am <= 6,
            height >= 1,
        ensures
            match r {
                Ok(s) => {
                    &&& s.wf()
                    &&& flat@.len() % (height as nat) == 0
                    &&& s@ == (ShellV {
                        am: am as int,
                        rows: height as nat,
                        cols: (flat@.len() / height as nat),
                        data: flat@,
                    })
                },
                Err(e) => e == BasisError::RaggedShellMatrix && flat@.len() % (height as nat)
                    != 0,
            },
    {
        let n = flat.len();
        if n % height != 0 {
            return Err(BasisError::RaggedShellMatrix);
        }
        let cols = n / height;
        proof {
            assert((height as nat) * (n as nat / height as nat) == n as nat) by (nonlinear_arith)
                requires
                    height >= 1,
                    n as nat % height as nat == 0,
            ;
        }
        Ok(Shell { am, rows: height, cols, data: flat })
    }
}

/// The ordered shell list of one chemical element, in file order.
#[derive(Debug, Clone, PartialEq)]
pub struct AtomBasis {
    pub basis: Vec<Shell>,
}

/// The model of a shell sequence: each shell replaced by its view.
pub open spec fn shells_v(v: Seq<Shell>) -> Seq<ShellV> {
    Seq::new(v.len(), |i: int| v[i]@)
}

impl View for AtomBasis {
    type V = Seq<ShellV>;

    open spec fn view(&self) -> Seq<ShellV> {
        shells_v(self.basis@)
    }
}

impl AtomBasis {
    pub open spec fn wf(&self) -> bool {
        wf_basis_v(self@)
    }
}

} // verus!
