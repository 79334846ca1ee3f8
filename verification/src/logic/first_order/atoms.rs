//! The names of grounded atoms tell the atoms apart: what the table of
//! the grounded form gains, and that no two atoms share an entry.

use vstd::prelude::*;
use vstd::string::*;
use super::ground::{
    atom_name, atom_names, atom_total, atoms_named, digits, joined,
    law_atom_count, law_digits_offset, product, sigs_of, sizes_of, Grounded, Sig,
};
use crate::text::{decimal, is_digit, law_decimal_apart, lemma_decimal_chars};
use crate::tree::traits::shown_name;
use crate::tree::tree::{merged, names_apart};

verus! {

/// A character of the numerals of a tuple: a digit, a comma or a space.
pub open spec fn is_tuple_char(c: char) -> bool {
    is_digit(c) || c == ',' || c == ' '
}

/// The numerals of a tuple hold digits, commas and spaces alone.
pub proof fn lemma_joined_chars(ds: Seq<nat>)
    ensures
        forall|i: int| 0 <= i < joined(ds).len() ==> is_tuple_char(#[trigger] joined(ds)[i]),
    decreases ds.len(),
{
    reveal_strlit(", ");
    if ds.len() == 0 {
    } else if ds.len() == 1 {
        lemma_decimal_chars(ds[0]);
    } else {
        lemma_joined_chars(ds.drop_last());
        lemma_decimal_chars(ds.last());
        let f = joined(ds.drop_last());
        let e = decimal(ds.last());
        assert forall|i: int| 0 <= i < joined(ds).len() implies is_tuple_char(
            #[trigger] joined(ds)[i],
        ) by {
            if i < f.len() {
                assert(joined(ds)[i] == f[i]);
            } else if i < f.len() + 2 {
                assert(joined(ds)[i] == ", "@[i - f.len()]);
            } else {
                assert(joined(ds)[i] == e[i - f.len() - 2]);
            }
        }
    }
}

/// A text that ends in a comma, a space and a numeral is cut at one place
/// only.
proof fn lemma_tail_apart(f1: Seq<char>, e1: Seq<char>, f2: Seq<char>, e2: Seq<char>)
    requires
        f1 + ", "@ + e1 == f2 + ", "@ + e2,
        forall|i: int| 0 <= i < e1.len() ==> is_digit(#[trigger] e1[i]),
        forall|i: int| 0 <= i < e2.len() ==> is_digit(#[trigger] e2[i]),
    ensures
        f1 == f2,
        e1 == e2,
{
    reveal_strlit(", ");
    let u1 = f1 + ", "@ + e1;
    let u2 = f2 + ", "@ + e2;
    assert(u1.len() == f1.len() + 2 + e1.len());
    assert(u2.len() == f2.len() + 2 + e2.len());
    if e1.len() < e2.len() {
        let p: int = (f1.len() + 1) as int;
        assert(u1[p] == ", "@[1]);
        assert(u2[p] == e2[p - f2.len() - 2]);
        assert(is_digit(e2[p - f2.len() - 2]));
        assert(false);
    }
    if e2.len() < e1.len() {
        let p: int = (f2.len() + 1) as int;
        assert(u2[p] == ", "@[1]);
        assert(u1[p] == e1[p - f1.len() - 2]);
        assert(is_digit(e1[p - f1.len() - 2]));
        assert(false);
    }
    assert forall|i: int| 0 <= i < f1.len() implies f1[i] == f2[i] by {
        assert(u1[i] == f1[i]);
        assert(u2[i] == f2[i]);
    }
    assert(f1 =~= f2);
    assert forall|i: int| 0 <= i < e1.len() implies e1[i] == e2[i] by {
        assert(u1[f1.len() + 2 + i] == e1[i]);
        assert(u2[f2.len() + 2 + i] == e2[i]);
    }
    assert(e1 =~= e2);
}

/// Different tuples of one length have different numerals.
pub proof fn lemma_joined_apart(d1: Seq<nat>, d2: Seq<nat>)
    requires
        d1.len() == d2.len(),
        joined(d1) == joined(d2),
    ensures
        d1 == d2,
    decreases d1.len(),
{
    if d1.len() == 0 {
        assert(d1 =~= d2);
    } else if d1.len() == 1 {
        law_decimal_apart(d1[0], d2[0]);
        assert(d1 =~= d2);
    } else {
        lemma_decimal_chars(d1.last());
        lemma_decimal_chars(d2.last());
        lemma_tail_apart(
            joined(d1.drop_last()),
            decimal(d1.last()),
            joined(d2.drop_last()),
            decimal(d2.last()),
        );
        lemma_joined_apart(d1.drop_last(), d2.drop_last());
        law_decimal_apart(d1.last(), d2.last());
        assert(d1 =~= d1.drop_last().push(d1.last()));
        assert(d2 =~= d2.drop_last().push(d2.last()));
    }
}

/// A name made of a radical and, in brackets, the numerals of a tuple is
/// cut at one place only.
proof fn lemma_name_apart(r1: Seq<char>, j1: Seq<char>, r2: Seq<char>, j2: Seq<char>)
    requires
        r1 + "("@ + j1 + ")"@ == r2 + "("@ + j2 + ")"@,
        forall|i: int| 0 <= i < j1.len() ==> is_tuple_char(#[trigger] j1[i]),
        forall|i: int| 0 <= i < j2.len() ==> is_tuple_char(#[trigger] j2[i]),
    ensures
        r1 == r2,
        j1 == j2,
{
    reveal_strlit("(");
    reveal_strlit(")");
    let u1 = r1 + "("@ + j1 + ")"@;
    let u2 = r2 + "("@ + j2 + ")"@;
    assert(u1.len() == r1.len() + 1 + j1.len() + 1);
    assert(u2.len() == r2.len() + 1 + j2.len() + 1);
    if r1.len() < r2.len() {
        let p: int = r2.len() as int;
        assert(u2[p] == "("@[0]);
        assert(u1[p] == j1[p - r1.len() - 1]);
        assert(is_tuple_char(j1[p - r1.len() - 1]));
        assert(false);
    }
    if r2.len() < r1.len() {
        let p: int = r1.len() as int;
        assert(u1[p] == "("@[0]);
        assert(u2[p] == j2[p - r2.len() - 1]);
        assert(is_tuple_char(j2[p - r2.len() - 1]));
        assert(false);
    }
    assert forall|i: int| 0 <= i < r1.len() implies r1[i] == r2[i] by {
        assert(u1[i] == r1[i]);
        assert(u2[i] == r2[i]);
    }
    assert(r1 =~= r2);
    assert forall|i: int| 0 <= i < j1.len() implies j1[i] == j2[i] by {
        assert(u1[r1.len() + 1 + i] == j1[i]);
        assert(u2[r2.len() + 1 + i] == j2[i]);
    }
    assert(j1 =~= j2);
}

/// Atoms with the same name are atoms of predicates that are shown alike;
/// and of one predicate, they stand at the same position.
pub proof fn law_atom_names_apart(
    r1: Seq<char>,
    u1: Seq<nat>,
    n1: nat,
    r2: Seq<char>,
    u2: Seq<nat>,
    n2: nat,
)
    requires
        atom_name(r1, u1, n1) == atom_name(r2, u2, n2),
    ensures
        r1 == r2,
        u1 == u2 && n1 < product(u1) && n2 < product(u2) ==> n1 == n2,
{
    lemma_joined_chars(digits(u1, n1));
    lemma_joined_chars(digits(u2, n2));
    lemma_name_apart(r1, joined(digits(u1, n1)), r2, joined(digits(u2, n2)));
    if u1 == u2 && n1 < product(u1) && n2 < product(u2) {
        law_digits_offset(u1, n1);
        law_digits_offset(u2, n2);
        lemma_joined_apart(digits(u1, n1), digits(u2, n2));
    }
}

/// No two predicates of `sigs` are shown alike.
pub open spec fn shown_apart(table: Seq<Option<Seq<char>>>, sigs: Seq<Sig>) -> bool {
    forall|i: int, j: int|
        0 <= i < sigs.len() && 0 <= j < sigs.len() && i != j ==> shown_name(
            table,
            (#[trigger] sigs[i]).id,
        ) != shown_name(table, (#[trigger] sigs[j]).id)
}

/// The name `name` is that of an atom of one of the predicates.
pub open spec fn named_among(
    table: Seq<Option<Seq<char>>>,
    sigs: Seq<Sig>,
    name: Option<Seq<char>>,
) -> bool {
    exists|k: int, n: nat|
        0 <= k < sigs.len() && name == Some(
            #[trigger] atom_name(shown_name(table, sigs[k].id), sizes_of(sigs[k].domains), n),
        )
}

/// Every atom name is the name of an atom of one of the predicates.
proof fn lemma_atom_sources(table: Seq<Option<Seq<char>>>, sigs: Seq<Sig>)
    ensures
        forall|x: int|
            0 <= x < atom_names(table, sigs).len() ==> named_among(
                table,
                sigs,
                #[trigger] atom_names(table, sigs)[x],
            ),
    decreases sigs.len(),
{
    if sigs.len() > 0 {
        let front = sigs.drop_last();
        let names = atom_names(table, sigs);
        let before = atom_names(table, front);
        lemma_atom_sources(table, front);
        assert forall|x: int| 0 <= x < names.len() implies named_among(
            table,
            sigs,
            #[trigger] names[x],
        ) by {
            if x < before.len() {
                assert(names[x] == before[x]);
                assert(named_among(table, front, before[x]));
                let (k, n) = choose|k: int, n: nat|
                    0 <= k < front.len() && before[x] == Some(
                        #[trigger] atom_name(
                            shown_name(table, front[k].id),
                            sizes_of(front[k].domains),
                            n,
                        ),
                    );
                assert(front[k] == sigs[k]);
                assert(names[x] == Some(
                    atom_name(shown_name(table, sigs[k].id), sizes_of(sigs[k].domains), n),
                ));
            } else {
                let k: int = sigs.len() - 1;
                let n: nat = (x - before.len()) as nat;
                assert(names[x] == Some(
                    atom_name(shown_name(table, sigs[k].id), sizes_of(sigs[k].domains), n),
                ));
            }
        }
    }
}

/// Grounding coverage: where no two predicates are shown alike, no two
/// atoms have the same name.
pub proof fn law_atom_names_distinct(table: Seq<Option<Seq<char>>>, sigs: Seq<Sig>)
    requires
        shown_apart(table, sigs),
    ensures
        names_apart(atom_names(table, sigs)),
    decreases sigs.len(),
{
    if sigs.len() > 0 {
        let front = sigs.drop_last();
        let last = sigs.last();
        let names = atom_names(table, sigs);
        let before = atom_names(table, front);
        let radical = shown_name(table, last.id);
        let sizes = sizes_of(last.domains);
        assert forall|i: int, j: int|
            0 <= i < front.len() && 0 <= j < front.len() && i != j implies shown_name(
            table,
            (#[trigger] front[i]).id,
        ) != shown_name(table, (#[trigger] front[j]).id) by {
            assert(front[i] == sigs[i] && front[j] == sigs[j]);
        }
        law_atom_names_distinct(table, front);
        lemma_atom_sources(table, front);
        assert forall|x: int, y: int|
            0 <= x < names.len() && 0 <= y < names.len() && (#[trigger] names[x]) is Some
                && names[x] == #[trigger] names[y] implies x == y by {
            if x < before.len() && y < before.len() {
                assert(names[x] == before[x] && names[y] == before[y]);
            } else if x >= before.len() && y >= before.len() {
                let n: nat = (x - before.len()) as nat;
                let m: nat = (y - before.len()) as nat;
                assert(names[x] == Some(atom_name(radical, sizes, n)));
                assert(names[y] == Some(atom_name(radical, sizes, m)));
                law_atom_names_apart(radical, sizes, n, radical, sizes, m);
            } else {
                let low: int = if x < before.len() {
                    x
                } else {
                    y
                };
                let high: int = if x < before.len() {
                    y
                } else {
                    x
                };
                let m: nat = (high - before.len()) as nat;
                assert(names[low] == before[low]);
                assert(names[high] == Some(atom_name(radical, sizes, m)));
                assert(named_among(table, front, before[low]));
                let (k, n) = choose|k: int, n: nat|
                    0 <= k < front.len() && before[low] == Some(
                        #[trigger] atom_name(
                            shown_name(table, front[k].id),
                            sizes_of(front[k].domains),
                            n,
                        ),
                    );
                assert(front[k] == sigs[k]);
                law_atom_names_apart(
                    shown_name(table, sigs[k].id),
                    sizes_of(sigs[k].domains),
                    n,
                    radical,
                    sizes,
                    m,
                );
                assert(sigs[sigs.len() - 1] == last);
                assert(false);
            }
        }
    }
}

/// A table gains every entry of a list of names that are all different and
/// all new to it.
pub proof fn lemma_merged_fresh(base: Seq<Option<Seq<char>>>, extra: Seq<Option<Seq<char>>>)
    requires
        names_apart(extra),
        forall|i: int| 0 <= i < extra.len() ==> !base.contains(#[trigger] extra[i]),
    ensures
        merged(base, extra) == base + extra,
    decreases extra.len(),
{
    if extra.len() == 0 {
        assert(base + extra =~= base);
    } else {
        let front = extra.drop_last();
        let e = extra.last();
        assert forall|i: int, j: int|
            0 <= i < front.len() && 0 <= j < front.len() && (#[trigger] front[i]) is Some
                && front[i] == #[trigger] front[j] implies i == j by {
            assert(extra[i] == front[i] && extra[j] == front[j]);
        }
        assert forall|i: int| 0 <= i < front.len() implies !base.contains(#[trigger] front[i]) by {
            assert(front[i] == extra[i]);
        }
        lemma_merged_fresh(base, front);
        let so_far = base + front;
        if e is Some && so_far.contains(e) {
            let p: int = choose|p: int| 0 <= p < so_far.len() && so_far[p] == e;
            if p < base.len() {
                assert(base[p] == e);
                assert(extra[extra.len() - 1] == e);
                assert(base.contains(extra[extra.len() - 1]));
            } else {
                let q: int = p - base.len();
                assert(front[q] == e);
                assert(extra[q] == e);
                assert(extra[extra.len() - 1] == e);
            }
            assert(false);
        }
        assert(so_far.push(e) =~= base + extra);
    }
}

/// Grounding coverage: where no two predicates are shown alike and no atom
/// name stands in the table yet, the table gains one entry for every tuple
/// of values of every predicate: as many as the sum over the predicates of
/// the products of the sizes of their domains.
pub proof fn law_table_gains_atoms(
    base: Seq<Option<Seq<char>>>,
    table: Seq<Option<Seq<char>>>,
    sigs: Seq<Sig>,
)
    requires
        shown_apart(table, sigs),
        forall|x: int|
            0 <= x < atom_names(table, sigs).len() ==> !base.contains(
                #[trigger] atom_names(table, sigs)[x],
            ),
    ensures
        merged(base, atom_names(table, sigs)) == base + atom_names(table, sigs),
        merged(base, atom_names(table, sigs)).len() == base.len() + atom_total(sigs),
{
    law_atom_names_distinct(table, sigs);
    lemma_merged_fresh(base, atom_names(table, sigs));
    law_atom_count(table, sigs);
}

/// Grounding coverage: where no two predicates are shown alike, no two
/// atoms are the same entry of the table.
pub proof fn law_atoms_apart(
    list: Seq<Grounded>,
    source: Seq<Option<Seq<char>>>,
    table: Seq<Option<Seq<char>>>,
    k1: int,
    i1: int,
    k2: int,
    i2: int,
)
    requires
        shown_apart(source, sigs_of(list)),
        atoms_named(list, source, table),
        forall|k: int| 0 <= k < list.len() ==> (#[trigger] list[k]).complete(),
        0 <= k1 < list.len(),
        0 <= k2 < list.len(),
        0 <= i1 < list[k1].grounded@.len(),
        0 <= i2 < list[k2].grounded@.len(),
        list[k1].grounded@[i1] == list[k2].grounded@[i2],
    ensures
        k1 == k2,
        i1 == i2,
{
    let a = list[k1].grounded@[i1];
    let b = list[k2].grounded@[i2];
    assert(table[a.addr as int] == Some(
        atom_name(shown_name(source, list[k1].id), list[k1].sizes(), i1 as nat),
    ));
    assert(table[b.addr as int] == Some(
        atom_name(shown_name(source, list[k2].id), list[k2].sizes(), i2 as nat),
    ));
    law_atom_names_apart(
        shown_name(source, list[k1].id),
        list[k1].sizes(),
        i1 as nat,
        shown_name(source, list[k2].id),
        list[k2].sizes(),
        i2 as nat,
    );
    assert(sigs_of(list)[k1].id == list[k1].id);
    assert(sigs_of(list)[k2].id == list[k2].id);
    assert(list[k1].complete() && list[k2].complete());
}

} // verus!
