//! Native-compiler driving decisions: which source files belong to the
//! configured language mode, which compiler executable runs, and which
//! standard flag it gets. Walking the tree and spawning the toolchain are
//! left to the unverified rim; everything decided here is exact.

use vstd::prelude::*;

verus! {

pub const SLASH: u8 = 47;

pub const DOT: u8 = 46;

/// Index of the last occurrence of `b` in `s`.
pub open spec fn last_idx(s: Seq<u8>, b: u8) -> Option<int>
    decreases s.len(),
{
    if s.len() == 0 {
        None
    } else if s[s.len() - 1] == b {
        Some(s.len() - 1)
    } else {
        last_idx(s.drop_last(), b)
    }
}

proof fn lemma_last_idx(s: Seq<u8>, b: u8)
    ensures
        match last_idx(s, b) {
            Some(i) => 0 <= i < s.len() && s[i] == b && (forall|j: int|
                i < j < s.len() ==> s[j] != b),
            None => forall|j: int| 0 <= j < s.len() ==> s[j] != b,
        },
    decreases s.len(),
{
    if s.len() > 0 && s[s.len() - 1] != b {
        lemma_last_idx(s.drop_last(), b);
        assert(forall|j: int| 0 <= j < s.len() - 1 ==> s.drop_last()[j] == s[j]);
    }
}

/// The file-name part of a path: everything after the last separator.
pub open spec fn file_name_of(p: Seq<u8>) -> Seq<u8> {
    match last_idx(p, SLASH) {
        Some(i) => p.skip(i + 1),
        None => p,
    }
}

/// The extension of a path: what follows the last dot of the file name,
/// unless the dot leads the name or there is none.
pub open spec fn ext_of(p: Seq<u8>) -> Option<Seq<u8>> {
    let name = file_name_of(p);
    match last_idx(name, DOT) {
        Some(i) => if i > 0 {
            Some(name.skip(i + 1))
        } else {
            None
        },
        None => None,
    }
}

/// The C source extension.
pub open spec fn c_ext() -> Seq<u8> {
    seq![99u8]
}

/// The C++ source extension.
pub open spec fn cpp_ext() -> Seq<u8> {
    seq![99u8, 112u8, 112u8]
}

/// Whether a path names a source file of the given language mode.
pub open spec fn source_matches(p: Seq<u8>, cpp: bool) -> bool {
    ext_of(p) == Some(
        if cpp {
            cpp_ext()
        } else {
            c_ext()
        },
    )
}

/// No path belongs to both language modes: the mode filter is exclusive.
pub proof fn lemma_modes_disjoint(p: Seq<u8>)
    ensures
        !(source_matches(p, false) && source_matches(p, true)),
{
    if source_matches(p, false) && source_matches(p, true) {
        assert(c_ext() == cpp_ext());
        assert(c_ext().len() == 1 && cpp_ext().len() == 3);
    }
}

/// Find the last occurrence of `b` at or after position `from`.
fn find_last_from(s: &Vec<u8>, b: u8, from: usize) -> (r: Option<usize>)
    requires
        from <= s.len(),
    ensures
        match r {
            Some(i) => from <= i < s@.len() && last_idx(s@.skip(from as int), b) == Some(
                i - from,
            ),
            None => last_idx(s@.skip(from as int), b) is None,
        },
{
    let ghost ss = s@.skip(from as int);
    proof {
        lemma_last_idx(ss, b);
    }
    let mut i: usize = s.len();
    loop
        invariant
            from <= i <= s.len(),
            ss == s@.skip(from as int),
            ss.len() == s@.len() - from,
            forall|j: int| i <= j < s@.len() ==> s@[j] != b,
            last_idx(ss, b) matches Some(k) ==> 0 <= k < ss.len() && ss[k] == b && (forall|j: int|
                k < j < ss.len() ==> ss[j] != b),
            last_idx(ss, b) is None ==> forall|j: int| 0 <= j < ss.len() ==> ss[j] != b,
        decreases i,
    {
        if i == from {
            proof {
                if last_idx(ss, b) is Some {
                    let k = last_idx(ss, b)->Some_0;
                    assert(ss[k] == s@[from + k]);
                    assert(false);
                }
            }
            return None;
        }
        i = i - 1;
        if s[i] == b {
            proof {
                assert(ss[i - from] == s@[i as int]);
                if last_idx(ss, b) is None {
                    assert(false);
                }
                let k = last_idx(ss, b)->Some_0;
                if k < i - from {
                    assert(ss[i - from] != b);
                    assert(false);
                }
                if k > i - from {
                    assert(s@[from + k] == ss[k]);
                    assert(s@[from + k] != b);
                    assert(false);
                }
            }
            return Some(i);
        }
    }
}

/// Decide whether a path names a source file of the given language mode:
/// `.c` in C mode, `.cpp` in C++ mode.
pub fn matches_source_kind(path: &Vec<u8>, cpp: bool) -> (r: bool)
    ensures
        r == source_matches(path@, cpp),
{
    let name_start: usize = match find_last_from(path, SLASH, 0) {
        Some(i) => {
            let n = path.len();
            proof {
                assert(path@.skip(0) =~= path@);
                assert(i < n);
            }
            i + 1
        },
        None => {
            proof {
                assert(path@.skip(0) =~= path@);
            }
            0
        },
    };
    let ghost name = file_name_of(path@);
    proof {
        assert(name =~= path@.skip(name_start as int));
    }
    let dot = match find_last_from(path, DOT, name_start) {
        Some(i) => i,
        None => {
            return false;
        },
    };
    if dot == name_start {
        return false;
    }
    let ghost ext = name.skip(dot - name_start + 1);
    proof {
        assert(ext_of(path@) == Some(ext));
        assert(ext =~= path@.skip(dot as int + 1));
        assert(ext.len() == path@.len() - dot - 1);
    }
    let rem = path.len() - dot - 1;
    if cpp {
        if rem != 3 {
            proof {
                assert(ext.len() != cpp_ext().len());
            }
            return false;
        }
        let ok = path[dot + 1] == 99 && path[dot + 2] == 112 && path[dot + 3] == 112;
        proof {
            assert(ext[0] == path@[dot as int + 1]);
            assert(ext[1] == path@[dot as int + 2]);
            assert(ext[2] == path@[dot as int + 3]);
            if ok {
                assert(ext =~= cpp_ext());
            } else {
                assert(ext != cpp_ext());
            }
        }
        ok
    } else {
        if rem != 1 {
            proof {
                assert(ext.len() != c_ext().len());
            }
            return false;
        }
        let ok = path[dot + 1] == 99;
        proof {
            assert(ext[0] == path@[dot as int + 1]);
            if ok {
                assert(ext =~= c_ext());
            } else {
                assert(ext != c_ext());
            }
        }
        ok
    }
}

/// Decimal digits of a byte value.
pub open spec fn dec_digits(n: u8) -> Seq<u8> {
    if n < 10 {
        seq![(48 + n) as u8]
    } else if n < 100 {
        seq![(48 + n / 10) as u8, (48 + n % 10) as u8]
    } else {
        seq![(48 + n / 100) as u8, (48 + (n / 10) % 10) as u8, (48 + n % 10) as u8]
    }
}

/// The conventional C++ compiler name, used when no override is given.
pub open spec fn default_cxx() -> Seq<u8> {
    seq![122u8, 97u8, 110u8, 98u8, 105u8, 108u8, 95u8, 99u8, 43u8, 43u8]
}

/// The conventional C compiler name, used when no override is given.
pub open spec fn default_cc() -> Seq<u8> {
    seq![122u8, 97u8, 110u8, 98u8, 105u8, 108u8, 95u8, 99u8, 99u8]
}

/// The view of an optional byte vector.
pub open spec fn opt_bytes(o: Option<Vec<u8>>) -> Option<Seq<u8>> {
    match o {
        Some(v) => Some(v@),
        None => None,
    }
}

/// Which compiler executable the mode and the overrides select: the mode
/// picks which override applies; without one, the conventional name.
pub open spec fn chosen_compiler(
    cpp: Option<u8>,
    cxx_override: Option<Seq<u8>>,
    cc_override: Option<Seq<u8>>,
) -> Seq<u8> {
    match cpp {
        Some(_) => match cxx_override {
            Some(o) => o,
            None => default_cxx(),
        },
        None => match cc_override {
            Some(o) => o,
            None => default_cc(),
        },
    }
}

/// The standard flag the mode selects: `c++` and the standard's digits,
/// or none in C mode.
pub open spec fn std_flag_of(cpp: Option<u8>) -> Option<Seq<u8>> {
    match cpp {
        Some(n) => Some(seq![99u8, 43u8, 43u8] + dec_digits(n)),
        None => None,
    }
}

/// The compiler invocation that a language mode and the environment
/// overrides determine.
pub struct CompilerChoice {
    /// The executable to run.
    pub compiler: Vec<u8>,
    /// Whether the C++ front end is driven.
    pub is_cpp: bool,
    /// The language-standard flag, in C++ mode.
    pub std_flag: Option<Vec<u8>>,
}

fn push_dec_digits(out: &mut Vec<u8>, n: u8)
    ensures
        final(out)@ == old(out)@ + dec_digits(n),
{
    if n < 10 {
        out.push(48 + n);
    } else if n < 100 {
        out.push(48 + n / 10);
        out.push(48 + n % 10);
    } else {
        out.push(48 + n / 100);
        out.push(48 + (n / 10) % 10);
        out.push(48 + n % 10);
    }
    proof {
        assert(final(out)@ =~= old(out)@ + dec_digits(n));
    }
}

/// Select compiler executable, front end and standard flag for a unit:
/// an override wins over the conventional name; the mode decides which
/// override is even considered.
pub fn select_compiler(
    cpp: Option<u8>,
    cxx_override: Option<Vec<u8>>,
    cc_override: Option<Vec<u8>>,
) -> (r: CompilerChoice)
    ensures
        r.compiler@ == chosen_compiler(cpp, opt_bytes(cxx_override), opt_bytes(cc_override)),
        r.is_cpp == (cpp is Some),
        opt_bytes(r.std_flag) == std_flag_of(cpp),
{
    match cpp {
        Some(n) => {
            let compiler = match cxx_override {
                Some(o) => o,
                None => {
                    let mut v: Vec<u8> = Vec::new();
                    v.push(122);
                    v.push(97);
                    v.push(110);
                    v.push(98);
                    v.push(105);
                    v.push(108);
                    v.push(95);
                    v.push(99);
                    v.push(43);
                    v.push(43);
                    proof {
                        assert(v@ =~= default_cxx());
                    }
                    v
                },
            };
            let mut flag: Vec<u8> = Vec::new();
            flag.push(99);
            flag.push(43);
            flag.push(43);
            push_dec_digits(&mut flag, n);
            proof {
                assert(flag@ =~= seq![99u8, 43u8, 43u8] + dec_digits(n));
            }
            CompilerChoice { compiler, is_cpp: true, std_flag: Some(flag) }
        },
        None => {
            let compiler = match cc_override {
                Some(o) => o,
                None => {
                    let mut v: Vec<u8> = Vec::new();
                    v.push(122);
                    v.push(97);
                    v.push(110);
                    v.push(98);
                    v.push(105);
                    v.push(108);
                    v.push(95);
                    v.push(99);
                    v.push(99);
                    proof {
                        assert(v@ =~= default_cc());
                    }
                    v
                },
            };
            CompilerChoice { compiler, is_cpp: false, std_flag: None }
        },
    }
}

} // verus!
