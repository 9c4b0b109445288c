//! Text forms of a graph: the dot graph description (one edge line per
//! permutation entry) and the permutation-table format (a walk-length
//! header, the dimensions, and one tab-separated row per permutation).

use crate::fpe::ccn::{digit_char, push_digit};
use crate::graph::{views_of, Graph, NewGraph, ValidGraph};
use vstd::prelude::*;
use vstd::string::StringExecFns;

verus! {

/// Which text form to emit.
pub enum GraphFormat {
    Dot,
    /// The permutation table, with the given walk length in its header.
    Perm(usize),
}

/// The decimal digits of `v`, most significant first, no padding.
pub open spec fn dec_str(v: nat) -> Seq<char>
    decreases v,
{
    if v < 10 {
        seq![digit_char(v)]
    } else {
        dec_str(v / 10).push(digit_char(v % 10))
    }
}

/// One dot edge line: a tab, the vertex, the arrow, its image, `;`.
pub open spec fn edge_line(i: nat, v: nat, arrow: Seq<char>) -> Seq<char> {
    seq!['\t'] + dec_str(i) + arrow + dec_str(v) + seq![';', '\n']
}

/// The edge lines of the first `upto` entries of one permutation.
pub open spec fn perm_edge_lines(p: Seq<u64>, upto: int, arrow: Seq<char>) -> Seq<char>
    decreases upto,
{
    if upto <= 0 {
        Seq::empty()
    } else {
        perm_edge_lines(p, upto - 1, arrow) + edge_line((upto - 1) as nat, p[upto - 1] as nat, arrow)
    }
}

/// The edge lines of the first `upto` permutations.
pub open spec fn perms_edge_lines(ps: Seq<Seq<u64>>, upto: int, arrow: Seq<char>) -> Seq<char>
    decreases upto,
{
    if upto <= 0 {
        Seq::empty()
    } else {
        perms_edge_lines(ps, upto - 1, arrow) + perm_edge_lines(
            ps[upto - 1],
            ps[upto - 1].len() as int,
            arrow,
        )
    }
}

/// The dot form: the graph kind, the edge lines of the forward half,
/// and the closing brace.
pub open spec fn dot_spec(ps: Seq<Seq<u64>>, header: Seq<char>, arrow: Seq<char>) -> Seq<char> {
    header + perms_edge_lines(ps, ps.len() as int / 2, arrow) + "}\n"@
}

/// One tab-separated row of the permutation table.
pub open spec fn row_chars(p: Seq<u64>, upto: int) -> Seq<char>
    decreases upto,
{
    if upto <= 0 {
        Seq::empty()
    } else if upto == 1 {
        dec_str(p[0] as nat)
    } else {
        row_chars(p, upto - 1) + seq!['\t'] + dec_str(p[upto - 1] as nat)
    }
}

/// The first `upto` rows of the permutation table, joined by newlines.
pub open spec fn rows_chars(ps: Seq<Seq<u64>>, upto: int) -> Seq<char>
    decreases upto,
{
    if upto <= 0 {
        Seq::empty()
    } else if upto == 1 {
        row_chars(ps[0], ps[0].len() as int)
    } else {
        rows_chars(ps, upto - 1) + seq!['\n'] + row_chars(ps[upto - 1], ps[upto - 1].len() as int)
    }
}

/// The permutation-table form: the walk length, the dimensions and the
/// first `rows` permutations as tab-separated rows.
pub open spec fn perm_table_spec(ps: Seq<Seq<u64>>, rows: int, wl: nat, n: nat, d: nat) -> Seq<
    char,
> {
    "S\t"@ + dec_str(wl) + "\n"@ + "N\t"@ + dec_str(n) + "\tD\t"@ + dec_str(d) + "\n"@
        + rows_chars(ps, rows)
}

/// A graph that can be written out as text, over its forward half for
/// the directed reading or its whole permutation set for the
/// undirected one.
pub trait Convertible: Graph {
    fn to_string_directed(&self, f: GraphFormat) -> (r: String)
        ensures
            f is Dot ==> r@ == dot_spec(self.spec_permutations(), "digraph {\n"@, " -> "@),
            f matches GraphFormat::Perm(wl) ==> r@ == perm_table_spec(
                self.spec_permutations(),
                self.spec_permutations().len() as int / 2,
                wl as nat,
                self.spec_size(),
                self.spec_degree(),
            ),
    ;

    fn to_string_undirected(&self, f: GraphFormat) -> (r: String)
        ensures
            f is Dot ==> r@ == dot_spec(self.spec_permutations(), "graph {\n"@, " -- "@),
            f matches GraphFormat::Perm(wl) ==> r@ == perm_table_spec(
                self.spec_permutations(),
                self.spec_permutations().len() as int,
                wl as nat,
                self.spec_size(),
                self.spec_degree(),
            ),
    ;
}

/// Appends the decimal digits of `v`.
fn push_u64_decimal(s: &mut String, v: u64)
    ensures
        final(s)@ == old(s)@ + dec_str(v as nat),
    decreases v,
{
    if v < 10 {
        push_digit(s, v);
        proof {
            assert(s@ =~= old(s)@ + dec_str(v as nat));
        }
    } else {
        push_u64_decimal(s, v / 10);
        push_digit(s, v % 10);
        proof {
            assert(s@ =~= old(s)@ + dec_str(v as nat));
        }
    }
}

/// The dot text of the forward half of the permutations, with directed
/// edges.
pub fn perms_to_directed(perms: &[Vec<u64>]) -> (r: String)
    ensures
        r@ == dot_spec(views_of(perms@), "digraph {\n"@, " -> "@),
{
    dot_text(perms, true)
}

/// The dot text of the forward half of the permutations, with
/// undirected edges.
pub fn perms_to_undirected(perms: &[Vec<u64>]) -> (r: String)
    ensures
        r@ == dot_spec(views_of(perms@), "graph {\n"@, " -- "@),
{
    dot_text(perms, false)
}

fn dot_text(perms: &[Vec<u64>], directed: bool) -> (r: String)
    ensures
        directed ==> r@ == dot_spec(views_of(perms@), "digraph {\n"@, " -> "@),
        !directed ==> r@ == dot_spec(views_of(perms@), "graph {\n"@, " -- "@),
{
    let ghost ps = views_of(perms@);
    let ghost header: Seq<char> = if directed {
        "digraph {\n"@
    } else {
        "graph {\n"@
    };
    let ghost arrow: Seq<char> = if directed {
        " -> "@
    } else {
        " -- "@
    };
    let mut s = String::new();
    if directed {
        s.append("digraph {\n");
    } else {
        s.append("graph {\n");
    }
    let half = perms.len() / 2;
    let mut k: usize = 0;
    while k < half
        invariant
            k <= half,
            half == perms@.len() / 2,
            ps == views_of(perms@),
            arrow == (if directed {
                " -> "@
            } else {
                " -- "@
            }),
            header == (if directed {
                "digraph {\n"@
            } else {
                "graph {\n"@
            }),
            s@ == header + perms_edge_lines(ps, k as int, arrow),
        decreases half - k,
    {
        proof {
            crate::graph::lemma_views_of(perms@);
        }
        let p = &perms[k];
        let n = p.len();
        let mut i: usize = 0;
        while i < n
            invariant
                i <= n,
                k < half,
                half == perms@.len() / 2,
                n == p@.len(),
                p@ == ps[k as int],
                ps == views_of(perms@),
                arrow == (if directed {
                    " -> "@
                } else {
                    " -- "@
                }),
                header == (if directed {
                    "digraph {\n"@
                } else {
                    "graph {\n"@
                }),
                s@ == header + perms_edge_lines(ps, k as int, arrow) + perm_edge_lines(
                    ps[k as int],
                    i as int,
                    arrow,
                ),
            decreases n - i,
        {
            let ghost before = s@;
            s.append("\t");
            push_u64_decimal(&mut s, i as u64);
            if directed {
                s.append(" -> ");
            } else {
                s.append(" -- ");
            }
            push_u64_decimal(&mut s, p[i]);
            s.append(";\n");
            proof {
                reveal_strlit("\t");
                reveal_strlit(";\n");
                assert("\t"@ =~= seq!['\t']);
                assert(";\n"@ =~= seq![';', '\n']);
                assert(s@ =~= before + edge_line(i as nat, p@[i as int] as nat, arrow));
                assert(s@ =~= header + perms_edge_lines(ps, k as int, arrow) + perm_edge_lines(
                    ps[k as int],
                    i + 1,
                    arrow,
                ));
            }
            i = i + 1;
        }
        proof {
            assert(s@ =~= header + perms_edge_lines(ps, k + 1, arrow));
        }
        k = k + 1;
    }
    s.append("}\n");
    proof {
        assert(s@ =~= header + perms_edge_lines(ps, ps.len() as int / 2, arrow) + "}\n"@);
    }
    s
}

/// The permutation-table text of the first `rows` permutations.
fn perm_table_text(perms: &[Vec<u64>], rows: usize, walk_length: usize, n: usize, d: usize) -> (r:
    String)
    requires
        rows <= perms@.len(),
    ensures
        r@ == perm_table_spec(
            views_of(perms@),
            rows as int,
            walk_length as nat,
            n as nat,
            d as nat,
        ),
{
    let ghost ps = views_of(perms@);
    let mut s = String::new();
    s.append("S\t");
    push_u64_decimal(&mut s, walk_length as u64);
    s.append("\n");
    s.append("N\t");
    push_u64_decimal(&mut s, n as u64);
    s.append("\tD\t");
    push_u64_decimal(&mut s, d as u64);
    s.append("\n");
    let ghost head = s@;
    proof {
        assert(head =~= "S\t"@ + dec_str(walk_length as nat) + "\n"@ + "N\t"@ + dec_str(n as nat)
            + "\tD\t"@ + dec_str(d as nat) + "\n"@);
    }

    let mut k: usize = 0;
    while k < rows
        invariant
            k <= rows,
            rows <= perms@.len(),
            ps == views_of(perms@),
            s@ == head + rows_chars(ps, k as int),
            head == "S\t"@ + dec_str(walk_length as nat) + "\n"@ + "N\t"@ + dec_str(n as nat)
                + "\tD\t"@ + dec_str(d as nat) + "\n"@,
        decreases rows - k,
    {
        proof {
            crate::graph::lemma_views_of(perms@);
        }
        if k > 0 {
            s.append("\n");
            proof {
                reveal_strlit("\n");
                assert("\n"@ =~= seq!['\n']);
            }
        }
        let ghost before = s@;
        let p = &perms[k];
        let m = p.len();
        if m > 0 {
            push_u64_decimal(&mut s, p[0]);
            let mut i: usize = 1;
            while i < m
                invariant
                    1 <= i <= m,
                    k < rows,
                    rows <= perms@.len(),
                    m == p@.len(),
                    p@ == ps[k as int],
                    ps == views_of(perms@),
                    s@ == before + row_chars(ps[k as int], i as int),
                decreases m - i,
            {
                s.append("\t");
                push_u64_decimal(&mut s, p[i]);
                proof {
                    reveal_strlit("\t");
                    assert("\t"@ =~= seq!['\t']);
                    assert(s@ =~= before + row_chars(ps[k as int], i + 1));
                }
                i = i + 1;
            }
        }
        proof {
            if m == 0 {
                assert(row_chars(ps[k as int], 0) =~= Seq::<char>::empty());
                assert(s@ =~= before + row_chars(ps[k as int], m as int));
            }
            if k == 0 {
                assert(s@ =~= head + rows_chars(ps, 1));
            } else {
                assert(s@ =~= head + rows_chars(ps, k + 1));
            }
        }
        k = k + 1;
    }
    proof {
        assert(s@ =~= perm_table_spec(ps, rows as int, walk_length as nat, n as nat, d as nat));
    }
    s
}

impl Convertible for ValidGraph {
    fn to_string_directed(&self, f: GraphFormat) -> (r: String) {
        let perms = self.permutations();
        match f {
            GraphFormat::Dot => perms_to_directed(perms.as_slice()),
            GraphFormat::Perm(walk_length) => perm_table_text(
                perms.as_slice(),
                perms.len() / 2,
                walk_length,
                self.size(),
                self.degree(),
            ),
        }
    }

    fn to_string_undirected(&self, f: GraphFormat) -> (r: String) {
        let perms = self.permutations();
        match f {
            GraphFormat::Dot => perms_to_undirected(perms.as_slice()),
            GraphFormat::Perm(walk_length) => perm_table_text(
                perms.as_slice(),
                perms.len(),
                walk_length,
                self.size(),
                self.degree(),
            ),
        }
    }
}

impl Convertible for NewGraph {
    fn to_string_directed(&self, f: GraphFormat) -> (r: String) {
        let perms = self.permutations();
        match f {
            GraphFormat::Dot => perms_to_directed(perms.as_slice()),
            GraphFormat::Perm(walk_length) => perm_table_text(
                perms.as_slice(),
                perms.len() / 2,
                walk_length,
                self.size(),
                self.degree(),
            ),
        }
    }

    fn to_string_undirected(&self, f: GraphFormat) -> (r: String) {
        let perms = self.permutations();
        match f {
            GraphFormat::Dot => perms_to_undirected(perms.as_slice()),
            GraphFormat::Perm(walk_length) => perm_table_text(
                perms.as_slice(),
                perms.len(),
                walk_length,
                self.size(),
                self.degree(),
            ),
        }
    }
}

} // verus!
