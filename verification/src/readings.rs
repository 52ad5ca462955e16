//! A block says what was printed into it.
//!
//! The laws here go from quantities through the line that prints them to what the block says
//! afterwards: each quantity in its own place, and nothing else changed.

use vstd::prelude::*;
use crate::block::{
    block_after, block_line, block_of, block_procs, by_index, card_of, cards_of, fields,
    is_block_cards, is_unreported, lemma_by_index, mems, parsed_u32, procs_by_index, reading,
    section_of, Block, Card, Section,
};
use crate::decimal::{display, lemma_display_round_trip, lemma_numeral_number};
use crate::double::Double;
use crate::model::{Gpu, Host};
use crate::pieces::{
    is_bare, is_without, is_word, lemma_bare_trimmed, lemma_commas_split, lemma_first_word,
    lemma_lines_add, lemma_three_words, with_commas,
};
use crate::table::{lemma_put_lookup, lookup};
use crate::text::{is_digit, is_space, lines, numeral, split, starts, trimmed};

verus! {

broadcast use vstd::string::group_string_axioms;

// ---------------------------------------------------------------- lines

proof fn lemma_prefix(ls: Seq<Seq<char>>, l: Seq<char>, k: int)
    requires
        0 <= k <= ls.len(),
    ensures
        block_after(ls.push(l), k) == block_after(ls, k),
    decreases k,
{
    if k > 0 {
        lemma_prefix(ls, l, k - 1);
        assert(ls.push(l)[k - 1] == ls[k - 1]);
    }
}

/// What whole lines and one more say.
proof fn lemma_line_adds(t: Seq<char>, l: Seq<char>)
    requires
        t.len() == 0 || t.last() == '\n',
        is_without(l, '\n'),
        l.len() > 0 ==> l.last() != '\r',
    ensures
        block_of(t + l + seq!['\n']) == block_line(block_of(t), l),
{
    lemma_lines_add(t, l);
    let ls = lines(t);
    lemma_prefix(ls, l, ls.len() as int);
    assert(ls.push(l)[ls.len() as int] == l);
}

/// Fields as a tool prints them, with a comma and a space between them.
pub open spec fn spaced(fs: Seq<Seq<char>>) -> Seq<char> {
    with_commas(
        Seq::new(
            fs.len(),
            |i: int|
                if i == 0 {
                    fs[0]
                } else {
                    seq![' '] + fs[i]
                },
        ),
    )
}

#[verifier::rlimit(40)]
proof fn lemma_spaced(fs: Seq<Seq<char>>)
    requires
        fs.len() > 0,
        fs[0].len() > 0,
        fs.last().len() > 0,
        forall|i: int| 0 <= i < fs.len() ==> is_bare(#[trigger] fs[i]),
    ensures
        fields(spaced(fs)) == fs,
        trimmed(spaced(fs)) == spaced(fs),
        spaced(fs).len() > 0,
        spaced(fs)[0] == fs[0][0],
        !is_space(spaced(fs).last()),
        is_without(spaced(fs), '\n'),
{
    let ts = Seq::new(
        fs.len(),
        |i: int|
            if i == 0 {
                fs[0]
            } else {
                seq![' '] + fs[i]
            },
    );
    assert forall|i: int| 0 <= i < ts.len() implies is_without(#[trigger] ts[i], ',')
        && is_without(ts[i], '\n') by {
        assert(is_bare(fs[i]));
        assert forall|k: int| 0 <= k < ts[i].len() implies #[trigger] ts[i][k] != ',' && ts[i][k]
            != '\n' by {
            if i > 0 && k > 0 {
                assert(ts[i][k] == fs[i][k - 1]);
            } else if i == 0 {
                assert(ts[i][k] == fs[i][k]);
            }
        }
    }
    lemma_commas_split(ts);
    assert(is_bare(fs[0]));
    let n = fs.len() - 1;
    assert(is_bare(fs[n]));
    assert(ts.last().last() == fs.last().last());
    crate::pieces::lemma_commas_ends(ts);
    assert forall|i: int| 0 <= i < fs.len() implies #[trigger] fields(spaced(fs))[i] == fs[i] by {
        assert(is_bare(fs[i]));
        lemma_bare_trimmed(fs[i]);
        assert(split(spaced(fs), ',')[i] == ts[i]);
    }
    assert(fields(spaced(fs)) =~= fs);
    lemma_bare_trimmed(spaced(fs));
}

/// A number as a tool prints it, or its mark for one that it does not report.
pub open spec fn printed(n: Option<Double>) -> Seq<char> {
    match n {
        Some(x) => display(x),
        None => "[N/A]"@,
    }
}

/// Whether a number can be printed.
pub open spec fn is_printable(n: Option<Double>) -> bool {
    n matches Some(x) ==> x.finite()
}

/// A number that is printed is read as that number.
#[verifier::rlimit(40)]
pub proof fn lemma_printed(n: Option<Double>)
    requires
        is_printable(n),
    ensures
        reading(printed(n)) == n,
        is_bare(printed(n)),
        is_word(printed(n)),
{
    let t = printed(n);
    reveal_strlit("[N/A]");
    reveal_strlit("N/A");
    reveal_strlit("[Not Supported]");
    reveal_strlit("Not Supported");
    reveal_strlit("unknown");
    if let Some(x) = n {
        lemma_display_round_trip(x);
        assert forall|i: int| 0 <= i < t.len() implies !is_space(#[trigger] t[i]) && t[i] != ','
            && t[i] != '\n' by {
            assert(is_digit(t[i]) || t[i] == '.' || t[i] == '-');
        }
        assert(is_digit(t[0]) || t[0] == '-');
        assert(!is_unreported(t)) by {
            assert("N/A"@[0] == 'N');
            assert("[N/A]"@[0] == '[');
            assert("[Not Supported]"@[0] == '[');
            assert("Not Supported"@[0] == 'N');
            assert("unknown"@[0] == 'u');
        }
    } else {
        assert(t.len() == 5);
        assert(t[0] == '[' && t[1] == 'N' && t[2] == '/' && t[3] == 'A' && t[4] == ']');
        assert forall|i: int| 0 <= i < t.len() implies !is_space(#[trigger] t[i]) && t[i] != ','
            && t[i] != '\n' by {
            assert(i == 0 || i == 1 || i == 2 || i == 3 || i == 4);
        }
    }
    lemma_bare_trimmed(t);
}

proof fn lemma_numeral_bare(n: nat)
    ensures
        is_bare(numeral(n)),
        is_word(numeral(n)),
        n <= u32::MAX ==> parsed_u32(numeral(n)) == Some(n as u32),
        is_digit(numeral(n)[0]),
{
    lemma_numeral_number(n);
    let t = numeral(n);
    assert forall|i: int| 0 <= i < t.len() implies !is_space(#[trigger] t[i]) && t[i] != ',' && t[i]
        != '\n' && t[i] != '+' by {
        assert(is_digit(t[i]));
    }
    assert(is_digit(t[0]));
}

// ---------------------------------------------------------------- a card

/// The line that prints a card, in the order in which the tool is asked for the quantities:
/// index, name, UUID, use, memory in use, memory in all, power, its limit, temperature, fan.
pub open spec fn card_line(c: Card, uuid: Seq<char>) -> Seq<char> {
    spaced(
        seq![
            numeral(c.index as nat),
            c.name,
            uuid,
            printed(c.util),
            printed(c.mem_used),
            printed(c.mem_total),
            printed(c.power),
            printed(c.power_limit),
            printed(c.temp),
            printed(c.fan),
        ],
    )
}

/// Whether a card can be printed.
pub open spec fn is_printable_card(c: Card, uuid: Seq<char>) -> bool {
    &&& is_bare(c.name)
    &&& is_bare(uuid)
    &&& is_printable(c.util)
    &&& is_printable(c.mem_used)
    &&& is_printable(c.mem_total)
    &&& is_printable(c.power)
    &&& is_printable(c.power_limit)
    &&& is_printable(c.temp)
    &&& is_printable(c.fan)
}

proof fn lemma_card_line(c: Card, uuid: Seq<char>)
    requires
        is_printable_card(c, uuid),
    ensures
        ({
            let l = card_line(c, uuid);
            let p = fields(l);
            &&& trimmed(l) == l
            &&& l.len() > 0
            &&& is_digit(l[0])
            &&& !is_space(l.last())
            &&& is_without(l, '\n')
            &&& p.len() == 10
            &&& parsed_u32(p[0]) == Some(c.index)
            &&& p[1] == c.name
            &&& p[2] == uuid
            &&& reading(p[3]) == c.util
            &&& reading(p[4]) == c.mem_used
            &&& reading(p[5]) == c.mem_total
            &&& reading(p[6]) == c.power
            &&& reading(p[7]) == c.power_limit
            &&& reading(p[8]) == c.temp
            &&& reading(p[9]) == c.fan
        }),
{
    let fs = seq![
        numeral(c.index as nat),
        c.name,
        uuid,
        printed(c.util),
        printed(c.mem_used),
        printed(c.mem_total),
        printed(c.power),
        printed(c.power_limit),
        printed(c.temp),
        printed(c.fan),
    ];
    lemma_numeral_bare(c.index as nat);
    lemma_printed(c.util);
    lemma_printed(c.mem_used);
    lemma_printed(c.mem_total);
    lemma_printed(c.power);
    lemma_printed(c.power_limit);
    lemma_printed(c.temp);
    lemma_printed(c.fan);
    assert forall|i: int| 0 <= i < fs.len() implies is_bare(#[trigger] fs[i]) by {
        assert(i == 0 || i == 1 || i == 2 || i == 3 || i == 4 || i == 5 || i == 6 || i == 7 || i
            == 8 || i == 9);
    }
    lemma_spaced(fs);
}

/// The law of a card: the line that prints it adds just that card, with each quantity in its own
/// place, and its UUID; nothing else changes.
pub proof fn lemma_card_reads(t: Seq<char>, c: Card, uuid: Seq<char>)
    requires
        t.len() == 0 || t.last() == '\n',
        block_of(t).section == Section::Gpu,
        is_printable_card(c, uuid),
    ensures
        ({
            let b = block_of(t);
            let d = block_of(t + card_line(c, uuid) + seq!['\n']);
            &&& d.cards == b.cards.push(c)
            &&& lookup(d.uuids, uuid) == Some(c.index)
            &&& forall|u: Seq<char>| u != uuid ==> #[trigger] lookup(d.uuids, u) == lookup(b.uuids, u)
            &&& d.section == Section::Gpu
            &&& d.procs == b.procs
            &&& d.host == b.host
            &&& d.saw_host == b.saw_host
            &&& d.saw_proc == b.saw_proc
        }),
{
    let l = card_line(c, uuid);
    let b = block_of(t);
    lemma_card_line(c, uuid);
    assert(l.last() != '\r') by {
        assert(is_space('\r'));
    }
    lemma_line_adds(t, l);
    reveal(block_line);
    reveal_strlit("###");
    assert(!starts(l, "###"@)) by {
        assert("###"@[0] == '#');
        if starts(l, "###"@) {
            assert(l.take(3)[0] == l[0]);
        }
    }
    assert forall|u: Seq<char>| u != uuid implies #[trigger] lookup(
        block_of(t + l + seq!['\n']).uuids,
        u,
    ) == lookup(b.uuids, u) by {
        lemma_put_lookup(b.uuids, uuid, c.index, u);
    }
    lemma_put_lookup(b.uuids, uuid, c.index, uuid);
}

// ---------------------------------------------------------------- parts

proof fn lemma_tags()
    ensures
        section_of("GPU"@) == Section::Gpu,
        section_of("PROC"@) == Section::Proc,
        section_of("LOAD"@) == Section::Load,
        section_of("NPROC"@) == Section::Nproc,
        section_of("MEM"@) == Section::Mem,
        section_of("DISK"@) == Section::Disk,
        section_of("UP"@) == Section::Up,
{
    reveal_strlit("GPU");
    reveal_strlit("PROC");
    reveal_strlit("LOAD");
    reveal_strlit("NPROC");
    reveal_strlit("MEM");
    reveal_strlit("DISK");
    reveal_strlit("UP");
    assert("GPU"@.len() == 3);
    assert("PROC"@.len() == 4);
    assert("LOAD"@.len() == 4);
    assert("NPROC"@.len() == 5);
    assert("MEM"@.len() == 3);
    assert("DISK"@.len() == 4);
    assert("UP"@.len() == 2);
    assert("GPU"@[0] != "MEM"@[0]);
    assert("PROC"@[0] != "LOAD"@[0]);
    assert("PROC"@[0] != "DISK"@[0]);
    assert("LOAD"@[0] != "DISK"@[0]);
}

proof fn lemma_header(t: Seq<char>, head: Seq<char>, tag: Seq<char>)
    requires
        t.len() == 0 || t.last() == '\n',
        head.len() == tag.len() + 3,
        starts(head, "###"@),
        head.skip(3) == tag,
        is_word(tag),
        is_without(head, '\n'),
    ensures
        block_of(t + head + seq!['\n']) == (Block { section: section_of(tag), ..block_of(t) }),
{
    reveal(block_line);
    assert(head.last() == tag.last());
    assert(is_space('\r'));
    lemma_line_adds(t, head);
    lemma_bare_trimmed(tag);
}

/// The law of the parts: a header starts its part and changes nothing else.
#[verifier::rlimit(40)]
pub proof fn lemma_headers(t: Seq<char>)
    requires
        t.len() == 0 || t.last() == '\n',
    ensures
        block_of(t + "###GPU"@ + seq!['\n']) == (Block { section: Section::Gpu, ..block_of(t) }),
        block_of(t + "###PROC"@ + seq!['\n']) == (Block { section: Section::Proc, ..block_of(t) }),
        block_of(t + "###LOAD"@ + seq!['\n']) == (Block { section: Section::Load, ..block_of(t) }),
        block_of(t + "###NPROC"@ + seq!['\n']) == (Block { section: Section::Nproc, ..block_of(t) }),
        block_of(t + "###MEM"@ + seq!['\n']) == (Block { section: Section::Mem, ..block_of(t) }),
        block_of(t + "###DISK"@ + seq!['\n']) == (Block { section: Section::Disk, ..block_of(t) }),
        block_of(t + "###UP"@ + seq!['\n']) == (Block { section: Section::Up, ..block_of(t) }),
{
    lemma_tags();
    reveal_strlit("###");
    assert(block_of(t + "###GPU"@ + seq!['\n']) == (Block { section: Section::Gpu, ..block_of(t) })) by {
        reveal_strlit("###GPU");
        reveal_strlit("GPU");
        let h = "###GPU"@;
        let g = "GPU"@;
        assert(h.len() == 6 && g.len() == 3);
        assert(h[0] == '#');
        assert(h[1] == '#');
        assert(h[2] == '#');
        assert(h[3] == 'G');
        assert(h[4] == 'P');
        assert(h[5] == 'U');
        assert(g[0] == 'G');
        assert(g[1] == 'P');
        assert(g[2] == 'U');
        assert(h.take(3) =~= "###"@);
        assert(h.skip(3) =~= g);
        assert forall|i: int| 0 <= i < g.len() implies !is_space(#[trigger] g[i]) by {
            assert(i == 0 || i == 1 || i == 2);
        }
        assert forall|i: int| 0 <= i < h.len() implies #[trigger] h[i] != '\n' by {
            assert(i == 0 || i == 1 || i == 2 || i == 3 || i == 4 || i == 5);
        }
        lemma_header(t, h, g);
    }
    assert(block_of(t + "###PROC"@ + seq!['\n']) == (Block { section: Section::Proc, ..block_of(t) })) by {
        reveal_strlit("###PROC");
        reveal_strlit("PROC");
        let h = "###PROC"@;
        let g = "PROC"@;
        assert(h.len() == 7 && g.len() == 4);
        assert(h[0] == '#');
        assert(h[1] == '#');
        assert(h[2] == '#');
        assert(h[3] == 'P');
        assert(h[4] == 'R');
        assert(h[5] == 'O');
        assert(h[6] == 'C');
        assert(g[0] == 'P');
        assert(g[1] == 'R');
        assert(g[2] == 'O');
        assert(g[3] == 'C');
        assert(h.take(3) =~= "###"@);
        assert(h.skip(3) =~= g);
        assert forall|i: int| 0 <= i < g.len() implies !is_space(#[trigger] g[i]) by {
            assert(i == 0 || i == 1 || i == 2 || i == 3);
        }
        assert forall|i: int| 0 <= i < h.len() implies #[trigger] h[i] != '\n' by {
            assert(i == 0 || i == 1 || i == 2 || i == 3 || i == 4 || i == 5 || i == 6);
        }
        lemma_header(t, h, g);
    }
    assert(block_of(t + "###LOAD"@ + seq!['\n']) == (Block { section: Section::Load, ..block_of(t) })) by {
        reveal_strlit("###LOAD");
        reveal_strlit("LOAD");
        let h = "###LOAD"@;
        let g = "LOAD"@;
        assert(h.len() == 7 && g.len() == 4);
        assert(h[0] == '#');
        assert(h[1] == '#');
        assert(h[2] == '#');
        assert(h[3] == 'L');
        assert(h[4] == 'O');
        assert(h[5] == 'A');
        assert(h[6] == 'D');
        assert(g[0] == 'L');
        assert(g[1] == 'O');
        assert(g[2] == 'A');
        assert(g[3] == 'D');
        assert(h.take(3) =~= "###"@);
        assert(h.skip(3) =~= g);
        assert forall|i: int| 0 <= i < g.len() implies !is_space(#[trigger] g[i]) by {
            assert(i == 0 || i == 1 || i == 2 || i == 3);
        }
        assert forall|i: int| 0 <= i < h.len() implies #[trigger] h[i] != '\n' by {
            assert(i == 0 || i == 1 || i == 2 || i == 3 || i == 4 || i == 5 || i == 6);
        }
        lemma_header(t, h, g);
    }
    assert(block_of(t + "###NPROC"@ + seq!['\n']) == (Block { section: Section::Nproc, ..block_of(t) })) by {
        reveal_strlit("###NPROC");
        reveal_strlit("NPROC");
        let h = "###NPROC"@;
        let g = "NPROC"@;
        assert(h.len() == 8 && g.len() == 5);
        assert(h[0] == '#');
        assert(h[1] == '#');
        assert(h[2] == '#');
        assert(h[3] == 'N');
        assert(h[4] == 'P');
        assert(h[5] == 'R');
        assert(h[6] == 'O');
        assert(h[7] == 'C');
        assert(g[0] == 'N');
        assert(g[1] == 'P');
        assert(g[2] == 'R');
        assert(g[3] == 'O');
        assert(g[4] == 'C');
        assert(h.take(3) =~= "###"@);
        assert(h.skip(3) =~= g);
        assert forall|i: int| 0 <= i < g.len() implies !is_space(#[trigger] g[i]) by {
            assert(i == 0 || i == 1 || i == 2 || i == 3 || i == 4);
        }
        assert forall|i: int| 0 <= i < h.len() implies #[trigger] h[i] != '\n' by {
            assert(i == 0 || i == 1 || i == 2 || i == 3 || i == 4 || i == 5 || i == 6 || i == 7);
        }
        lemma_header(t, h, g);
    }
    assert(block_of(t + "###MEM"@ + seq!['\n']) == (Block { section: Section::Mem, ..block_of(t) })) by {
        reveal_strlit("###MEM");
        reveal_strlit("MEM");
        let h = "###MEM"@;
        let g = "MEM"@;
        assert(h.len() == 6 && g.len() == 3);
        assert(h[0] == '#');
        assert(h[1] == '#');
        assert(h[2] == '#');
        assert(h[3] == 'M');
        assert(h[4] == 'E');
        assert(h[5] == 'M');
        assert(g[0] == 'M');
        assert(g[1] == 'E');
        assert(g[2] == 'M');
        assert(h.take(3) =~= "###"@);
        assert(h.skip(3) =~= g);
        assert forall|i: int| 0 <= i < g.len() implies !is_space(#[trigger] g[i]) by {
            assert(i == 0 || i == 1 || i == 2);
        }
        assert forall|i: int| 0 <= i < h.len() implies #[trigger] h[i] != '\n' by {
            assert(i == 0 || i == 1 || i == 2 || i == 3 || i == 4 || i == 5);
        }
        lemma_header(t, h, g);
    }
    assert(block_of(t + "###DISK"@ + seq!['\n']) == (Block { section: Section::Disk, ..block_of(t) })) by {
        reveal_strlit("###DISK");
        reveal_strlit("DISK");
        let h = "###DISK"@;
        let g = "DISK"@;
        assert(h.len() == 7 && g.len() == 4);
        assert(h[0] == '#');
        assert(h[1] == '#');
        assert(h[2] == '#');
        assert(h[3] == 'D');
        assert(h[4] == 'I');
        assert(h[5] == 'S');
        assert(h[6] == 'K');
        assert(g[0] == 'D');
        assert(g[1] == 'I');
        assert(g[2] == 'S');
        assert(g[3] == 'K');
        assert(h.take(3) =~= "###"@);
        assert(h.skip(3) =~= g);
        assert forall|i: int| 0 <= i < g.len() implies !is_space(#[trigger] g[i]) by {
            assert(i == 0 || i == 1 || i == 2 || i == 3);
        }
        assert forall|i: int| 0 <= i < h.len() implies #[trigger] h[i] != '\n' by {
            assert(i == 0 || i == 1 || i == 2 || i == 3 || i == 4 || i == 5 || i == 6);
        }
        lemma_header(t, h, g);
    }
    assert(block_of(t + "###UP"@ + seq!['\n']) == (Block { section: Section::Up, ..block_of(t) })) by {
        reveal_strlit("###UP");
        reveal_strlit("UP");
        let h = "###UP"@;
        let g = "UP"@;
        assert(h.len() == 5 && g.len() == 2);
        assert(h[0] == '#');
        assert(h[1] == '#');
        assert(h[2] == '#');
        assert(h[3] == 'U');
        assert(h[4] == 'P');
        assert(g[0] == 'U');
        assert(g[1] == 'P');
        assert(h.take(3) =~= "###"@);
        assert(h.skip(3) =~= g);
        assert forall|i: int| 0 <= i < g.len() implies !is_space(#[trigger] g[i]) by {
            assert(i == 0 || i == 1);
        }
        assert forall|i: int| 0 <= i < h.len() implies #[trigger] h[i] != '\n' by {
            assert(i == 0 || i == 1 || i == 2 || i == 3 || i == 4);
        }
        lemma_header(t, h, g);
    }
}

/// The law of the lines that are passed over: among the cards, a line of fewer than ten fields,
/// or with something else than a number in front, adds nothing; nor does a blank line, or a line
/// under a heading that is not known.
pub proof fn lemma_passed_over(t: Seq<char>, fs: Seq<Seq<char>>, blank: Seq<char>)
    requires
        t.len() == 0 || t.last() == '\n',
        fs.len() > 0,
        fs[0].len() > 0,
        fs[0][0] != '#',
        fs.last().len() > 0,
        forall|i: int| 0 <= i < fs.len() ==> is_bare(#[trigger] fs[i]),
        forall|i: int| 0 <= i < blank.len() ==> #[trigger] blank[i] == ' ',
    ensures
        block_of(t).section == Section::Gpu && (fs.len() < 10 || !is_digit(fs[0][0]) && fs[0][0]
            != '+') ==> block_of(t + spaced(fs) + seq!['\n']) == block_of(t),
        block_of(t).section == Section::Other ==> block_of(t + spaced(fs) + seq!['\n']) == block_of(
            t,
        ),
        block_of(t + blank + seq!['\n']) == block_of(t),
{
    let l = spaced(fs);
    lemma_spaced(fs);
    assert(l.last() != '\r') by {
        assert(is_space('\r'));
    }
    lemma_line_adds(t, l);
    reveal(block_line);
    reveal_strlit("###");
    assert(!starts(l, "###"@)) by {
        assert("###"@[0] == '#');
        if starts(l, "###"@) {
            assert(l.take(3)[0] == l[0]);
        }
    }
    if !is_digit(fs[0][0]) && fs[0][0] != '+' {
        assert(crate::block::parsed_u32(fs[0]) is None);
    }
    assert(is_without(blank, '\n'));
    if blank.len() > 0 {
        assert(blank[blank.len() - 1] == ' ');
    }
    lemma_line_adds(t, blank);
    assert(!starts(blank, "###"@)) by {
        assert("###"@[0] == '#');
        if starts(blank, "###"@) {
            assert(blank.take(3)[0] == blank[0]);
        }
    }
    lemma_all_blank(blank, 0);
    lemma_start_at_most(blank, blank.len() as int);
    assert(trimmed(blank).len() == 0);
}

proof fn lemma_all_blank(s: Seq<char>, i: int)
    requires
        0 <= i <= s.len(),
        forall|k: int| 0 <= k < s.len() ==> #[trigger] s[k] == ' ',
    ensures
        crate::text::space_end(s, i) == s.len(),
        crate::text::space_start(s, i) <= i,
    decreases s.len() - i, i,
{
    assert(is_space(' '));
    lemma_start_at_most(s, i);
    if i < s.len() {
        assert(s[i] == ' ');
        lemma_all_blank(s, i + 1);
    }
    lemma_start_at_most(s, s.len() as int);
}

proof fn lemma_start_at_most(s: Seq<char>, i: int)
    requires
        0 <= i <= s.len(),
    ensures
        crate::text::space_start(s, i) <= i,
    decreases i,
{
    if 0 < i && is_space(s[i - 1]) {
        lemma_start_at_most(s, i - 1);
    }
}

// ---------------------------------------------------------------- a process

/// The line that prints a process: the UUID of its card, its number, the memory that it has.
pub open spec fn process_line(uuid: Seq<char>, pid: nat, mem: Double) -> Seq<char> {
    spaced(seq![uuid, numeral(pid), printed(Some(mem))])
}

/// The law of a process: the line that prints it adds its memory to that of the processes on its
/// card, and to no other card's.
pub proof fn lemma_process_reads(t: Seq<char>, uuid: Seq<char>, pid: nat, mem: Double)
    requires
        t.len() == 0 || t.last() == '\n',
        block_of(t).section == Section::Proc,
        is_bare(uuid),
        uuid.len() > 0,
        uuid[0] != '#',
        mem.finite(),
    ensures
        ({
            let b = block_of(t);
            let d = block_of(t + process_line(uuid, pid, mem) + seq!['\n']);
            &&& mems(d.procs, uuid) == mems(b.procs, uuid).push(mem)
            &&& forall|u: Seq<char>| u != uuid ==> #[trigger] mems(d.procs, u) == mems(b.procs, u)
            &&& d.saw_proc
            &&& d.section == Section::Proc
            &&& d.cards == b.cards
            &&& d.uuids == b.uuids
            &&& d.host == b.host
            &&& d.saw_host == b.saw_host
        }),
{
    let l = process_line(uuid, pid, mem);
    let b = block_of(t);
    let fs = seq![uuid, numeral(pid), printed(Some(mem))];
    lemma_numeral_bare(pid);
    lemma_printed(Some(mem));
    assert forall|i: int| 0 <= i < fs.len() implies is_bare(#[trigger] fs[i]) by {
        assert(i == 0 || i == 1 || i == 2);
    }
    lemma_spaced(fs);
    assert(fields(l)[0] == uuid && fields(l)[2] == printed(Some(mem)));
    assert(l.last() != '\r') by {
        assert(is_space('\r'));
    }
    lemma_line_adds(t, l);
    reveal(block_line);
    reveal_strlit("###");
    assert(!starts(l, "###"@)) by {
        assert("###"@[0] == '#');
        if starts(l, "###"@) {
            assert(l.take(3)[0] == l[0]);
        }
    }
    let v = mems(b.procs, uuid).push(mem);
    let d = block_of(t + l + seq!['\n']);
    assert forall|u: Seq<char>| u != uuid implies #[trigger] mems(d.procs, u) == mems(b.procs, u) by {
        lemma_put_lookup(b.procs, uuid, v, u);
    }
    lemma_put_lookup(b.procs, uuid, v, uuid);
}

// ---------------------------------------------------------------- the host

proof fn lemma_host_line(t: Seq<char>, l: Seq<char>)
    requires
        t.len() == 0 || t.last() == '\n',
        is_without(l, '\n'),
        l.len() > 0,
        !is_space(l[0]),
        !is_space(l.last()),
        l[0] != '#',
        !(block_of(t).section is Gpu),
        !(block_of(t).section is Proc),
        !(block_of(t).section is Other),
    ensures
        block_of(t + l + seq!['\n']) == (Block {
            host: crate::block::host_line(block_of(t).section, block_of(t).host, l),
            saw_host: true,
            ..block_of(t)
        }),
{
    assert(is_space('\r'));
    lemma_line_adds(t, l);
    lemma_bare_trimmed(l);
    reveal(block_line);
    reveal_strlit("###");
    assert(!starts(l, "###"@)) by {
        assert("###"@[0] == '#');
        if starts(l, "###"@) {
            assert(l.take(3)[0] == l[0]);
        }
    }
}

/// Whether a text can stand behind the words of a line: it is empty, or starts with a space and
/// does not end with one.
pub open spec fn is_rest(s: Seq<char>) -> bool {
    &&& is_without(s, '\n')
    &&& s.len() > 0 ==> is_space(s[0]) && !is_space(s.last())
}

proof fn lemma_word_line(w: Seq<char>, rest: Seq<char>)
    requires
        is_word(w),
        is_without(w, '\n'),
        is_rest(rest),
    ensures
        is_without(w + rest, '\n'),
        (w + rest)[0] == w[0],
        !is_space((w + rest).last()),
{
    let l = w + rest;
    assert forall|i: int| 0 <= i < l.len() implies #[trigger] l[i] != '\n' by {
        if i < w.len() {
            assert(l[i] == w[i]);
        } else {
            assert(l[i] == rest[i - w.len()]);
        }
    }
    if rest.len() > 0 {
        assert(l.last() == rest.last());
    } else {
        assert(l =~= w);
        assert(w.last() == w[w.len() - 1]);
    }
}

/// The law of the load: the first word is the load over the last minute.
pub proof fn lemma_load_reads(t: Seq<char>, load: Double, rest: Seq<char>)
    requires
        t.len() == 0 || t.last() == '\n',
        block_of(t).section == Section::Load,
        load.finite(),
        is_rest(rest),
    ensures
        block_of(t + (display(load) + rest) + seq!['\n']) == (Block {
            host: Host { load1: Some(load), ..block_of(t).host },
            saw_host: true,
            ..block_of(t)
        }),
{
    let w = display(load);
    lemma_printed(Some(load));
    lemma_display_round_trip(load);
    lemma_word_line(w, rest);
    lemma_first_word(w, rest);
    lemma_host_line(t, w + rest);
}

/// The law of the processors: the line is their number.
pub proof fn lemma_nproc_reads(t: Seq<char>, n: u32)
    requires
        t.len() == 0 || t.last() == '\n',
        block_of(t).section == Section::Nproc,
    ensures
        block_of(t + numeral(n as nat) + seq!['\n']) == (Block {
            host: Host { nproc: n, ..block_of(t).host },
            saw_host: true,
            ..block_of(t)
        }),
{
    let w = numeral(n as nat);
    lemma_numeral_bare(n as nat);
    assert(w.last() == w[w.len() - 1]);
    lemma_host_line(t, w);
}

/// The law of the time since the start: the line is the seconds.
pub proof fn lemma_uptime_reads(t: Seq<char>, up: Double)
    requires
        t.len() == 0 || t.last() == '\n',
        block_of(t).section == Section::Up,
        up.finite(),
    ensures
        block_of(t + display(up) + seq!['\n']) == (Block {
            host: Host { uptime_sec: Some(up), ..block_of(t).host },
            saw_host: true,
            ..block_of(t)
        }),
{
    let w = display(up);
    lemma_printed(Some(up));
    lemma_display_round_trip(up);
    assert(w.last() == w[w.len() - 1]);
    lemma_host_line(t, w);
}

/// A line with a label and two quantities, as `free` and `df` print them: first all there is,
/// then what is in use.
pub open spec fn usage_line(label: Seq<char>, all: Double, used: Double, rest: Seq<char>) -> Seq<
    char,
> {
    label + seq![' '] + display(all) + seq![' '] + display(used) + rest
}

proof fn lemma_usage(label: Seq<char>, all: Double, used: Double, rest: Seq<char>)
    requires
        is_word(label),
        is_without(label, '\n'),
        label[0] != '#',
        all.finite(),
        used.finite(),
        is_rest(rest),
    ensures
        ({
            let l = usage_line(label, all, used, rest);
            let f = crate::text::words(l, 0);
            &&& is_without(l, '\n')
            &&& l.len() > 0
            &&& l[0] == label[0]
            &&& !is_space(l.last())
            &&& f.len() > 2
            &&& reading(f[1]) == Some(all)
            &&& reading(f[2]) == Some(used)
        }),
{
    let a = display(all);
    let b = display(used);
    lemma_printed(Some(all));
    lemma_printed(Some(used));
    lemma_three_words(label, a, b, rest);
    let l = usage_line(label, all, used, rest);
    let tail = seq![' '] + a + seq![' '] + b + rest;
    assert(l =~= label + tail);
    assert forall|i: int| 0 <= i < tail.len() implies #[trigger] tail[i] != '\n' by {
        let p = 1 + a.len();
        let q = p + 1 + b.len();
        if 0 < i < p {
            assert(tail[i] == a[i - 1]);
        } else if p < i < q {
            assert(tail[i] == b[i - p - 1]);
        } else if i >= q {
            assert(tail[i] == rest[i - q]);
        }
    }
    assert(!is_space(tail.last())) by {
        if rest.len() > 0 {
            assert(tail.last() == rest.last());
        } else {
            assert(tail.last() == b[b.len() - 1]);
        }
    }
    assert(is_space(' '));
    lemma_word_line(label, tail);
}

/// The law of the memory of the host: first all there is, then what is in use.
pub proof fn lemma_ram_reads(
    t: Seq<char>,
    label: Seq<char>,
    all: Double,
    used: Double,
    rest: Seq<char>,
)
    requires
        t.len() == 0 || t.last() == '\n',
        block_of(t).section == Section::Mem,
        is_word(label),
        is_without(label, '\n'),
        label[0] != '#',
        all.finite(),
        used.finite(),
        is_rest(rest),
    ensures
        block_of(t + usage_line(label, all, used, rest) + seq!['\n']) == (Block {
            host: Host {
                ram_total_mb: Some(all),
                ram_used_mb: Some(used),
                ..block_of(t).host
            },
            saw_host: true,
            ..block_of(t)
        }),
{
    lemma_usage(label, all, used, rest);
    lemma_host_line(t, usage_line(label, all, used, rest));
}

/// The law of the disk: first all there is, then what is in use.
pub proof fn lemma_disk_reads(
    t: Seq<char>,
    label: Seq<char>,
    all: Double,
    used: Double,
    rest: Seq<char>,
)
    requires
        t.len() == 0 || t.last() == '\n',
        block_of(t).section == Section::Disk,
        is_word(label),
        is_without(label, '\n'),
        label[0] != '#',
        all.finite(),
        used.finite(),
        is_rest(rest),
    ensures
        block_of(t + usage_line(label, all, used, rest) + seq!['\n']) == (Block {
            host: Host {
                disk_total_kb: Some(all),
                disk_used_kb: Some(used),
                ..block_of(t).host
            },
            saw_host: true,
            ..block_of(t)
        }),
{
    lemma_usage(label, all, used, rest);
    lemma_host_line(t, usage_line(label, all, used, rest));
}

// ---------------------------------------------------------------- a report

/// The lines that print the first `k` cards.
pub open spec fn cards_text(cs: Seq<Card>, uuids: Seq<Seq<char>>, k: int) -> Seq<char>
    decreases k,
{
    if k <= 0 {
        "###GPU"@ + seq!['\n']
    } else {
        cards_text(cs, uuids, k - 1) + card_line(cs[k - 1], uuids[k - 1]) + seq!['\n']
    }
}

pub(crate) proof fn lemma_cards_text(cs: Seq<Card>, uuids: Seq<Seq<char>>, k: int)
    requires
        cs.len() == uuids.len(),
        0 <= k <= cs.len(),
        forall|i: int| 0 <= i < cs.len() ==> is_printable_card(#[trigger] cs[i], uuids[i]),
    ensures
        cards_text(cs, uuids, k).last() == '\n',
        block_of(cards_text(cs, uuids, k)).cards == cs.take(k),
        block_of(cards_text(cs, uuids, k)).section == Section::Gpu,
        !block_of(cards_text(cs, uuids, k)).saw_proc,
        !block_of(cards_text(cs, uuids, k)).saw_host,
    decreases k,
{
    if k == 0 {
        let e = Seq::<char>::empty();
        lemma_headers(e);
        assert(e + "###GPU"@ + seq!['\n'] =~= cards_text(cs, uuids, 0));
        assert(lines(e) =~= seq![]);
        assert(block_of(e) == block_after(lines(e), 0));
        assert(cs.take(0) =~= seq![]);
    } else {
        lemma_cards_text(cs, uuids, k - 1);
        assert(is_printable_card(cs[k - 1], uuids[k - 1]));
        lemma_card_reads(cards_text(cs, uuids, k - 1), cs[k - 1], uuids[k - 1]);
        assert(cs.take(k - 1).push(cs[k - 1]) =~= cs.take(k));
    }
}

/// Whether a card of the sample has just the quantities of a card that was printed.
pub open spec fn is_same_card(g: Gpu, c: Card) -> bool {
    &&& g.index == c.index
    &&& g.name@ == c.name
    &&& g.util == c.util
    &&& g.mem_used == c.mem_used
    &&& g.mem_total == c.mem_total
    &&& g.power == c.power
    &&& g.power_limit == c.power_limit
    &&& g.temp == c.temp
    &&& g.fan == c.fan
}

/// The law of a report: the cards that come out are those that were printed, by their index,
/// each with its own quantities.
#[verifier::rlimit(40)]
pub proof fn lemma_report_reads(gpus: Seq<Gpu>, cs: Seq<Card>, uuids: Seq<Seq<char>>)
    requires
        cs.len() == uuids.len(),
        forall|i: int| 0 <= i < cs.len() ==> is_printable_card(#[trigger] cs[i], uuids[i]),
        is_block_cards(gpus, block_of(cards_text(cs, uuids, cs.len() as int))),
    ensures
        gpus.len() == cs.len(),
        forall|i: int, j: int|
            0 <= i < j < gpus.len() ==> (#[trigger] gpus[i]).index <= (#[trigger] gpus[j]).index,
        forall|k: int|
            0 <= k < cs.len() ==> exists|i: int|
                0 <= i < gpus.len() && is_same_card(#[trigger] gpus[i], #[trigger] cs[k]),
        forall|i: int|
            0 <= i < gpus.len() ==> exists|k: int|
                0 <= k < cs.len() && is_same_card(#[trigger] gpus[i], #[trigger] cs[k]),
{
    broadcast use vstd::seq_lib::group_to_multiset_ensures;

    let n = cs.len() as int;
    lemma_cards_text(cs, uuids, n);
    assert(cs.take(n) =~= cs);
    lemma_by_index(cs);
    let s = by_index(cs);
    let o = cards_of(gpus);
    assert(o == s);
    assert forall|i: int, j: int| 0 <= i < j < gpus.len() implies (#[trigger] gpus[i]).index <= (
    #[trigger] gpus[j]).index by {
        assert(s[i] == card_of(gpus[i]) && s[j] == card_of(gpus[j]));
    }
    assert forall|k: int| 0 <= k < cs.len() implies exists|i: int|
        0 <= i < gpus.len() && is_same_card(#[trigger] gpus[i], #[trigger] cs[k]) by {
        assert(cs.contains(cs[k]));
        assert(cs.to_multiset().contains(cs[k]));
        assert(s.contains(cs[k]));
        let i = choose|i: int| 0 <= i < s.len() && s[i] == cs[k];
        assert(card_of(gpus[i]) == cs[k]);
        assert(is_same_card(gpus[i], cs[k]));
    }
    assert forall|i: int| 0 <= i < gpus.len() implies exists|k: int|
        0 <= k < cs.len() && is_same_card(#[trigger] gpus[i], #[trigger] cs[k]) by {
        assert(s.contains(s[i]));
        assert(s.to_multiset().contains(s[i]));
        assert(cs.contains(s[i]));
        let k = choose|k: int| 0 <= k < cs.len() && cs[k] == s[i];
        assert(card_of(gpus[i]) == cs[k]);
        assert(is_same_card(gpus[i], cs[k]));
    }
}

/// The cards of an index.
pub open spec fn of_index(i: u32) -> spec_fn(Card) -> bool {
    |c: Card| c.index == i
}

proof fn lemma_inserted(cards: Seq<Card>, c: Card, i: u32)
    ensures
        crate::block::insert_card(cards, c).filter(of_index(i)) == if c.index == i {
            cards.filter(of_index(i)).push(c)
        } else {
            cards.filter(of_index(i))
        },
    decreases cards.len(),
{
    reveal(Seq::filter);
    let p = of_index(i);
    let r = crate::block::insert_card(cards, c);
    if cards.len() == 0 {
        assert(r.drop_last() =~= cards);
        assert(r.last() == c);
    } else if cards.last().index <= c.index {
        assert(r.drop_last() =~= cards);
        assert(r.last() == c);
    } else {
        let init = cards.drop_last();
        lemma_inserted(init, c, i);
        assert(r.drop_last() =~= crate::block::insert_card(init, c));
        assert(r.last() == cards.last());
    }
}

/// Cards of one index come out in the order in which they were printed.
pub proof fn lemma_stable(cards: Seq<Card>, i: u32)
    ensures
        by_index(cards).filter(of_index(i)) == cards.filter(of_index(i)),
    decreases cards.len(),
{
    reveal(Seq::filter);
    if cards.len() > 0 {
        lemma_stable(cards.drop_last(), i);
        lemma_inserted(by_index(cards.drop_last()), cards.last(), i);
    } else {
        assert(by_index(cards) =~= cards);
    }
}

proof fn lemma_procs_found(
    procs: Seq<(Seq<char>, Seq<Double>)>,
    uuids: Seq<(Seq<char>, u32)>,
    k: int,
    index: u32,
)
    requires
        0 <= k <= procs.len(),
        forall|a: int, b: int|
            0 <= a < procs.len() && 0 <= b < procs.len() && lookup(
                uuids,
                (#[trigger] procs[a]).0,
            ) == Some(index) && lookup(uuids, (#[trigger] procs[b]).0) == Some(index) ==> a == b,
    ensures
        forall|a: int|
            0 <= a < k && lookup(uuids, (#[trigger] procs[a]).0) == Some(index) ==> mems(
                procs_by_index(procs, uuids, k),
                numeral(index as nat),
            ) == procs[a].1,
        (forall|a: int| 0 <= a < k ==> lookup(uuids, (#[trigger] procs[a]).0) != Some(index))
            ==> lookup(procs_by_index(procs, uuids, k), numeral(index as nat)) is None,
    decreases k,
{
    if k > 0 {
        lemma_procs_found(procs, uuids, k - 1, index);
        let m = procs_by_index(procs, uuids, k - 1);
        if let Some(i) = lookup(uuids, procs[k - 1].0) {
            lemma_put_lookup(m, numeral(i as nat), procs[k - 1].1, numeral(index as nat));
            lemma_numeral_number(i as nat);
            lemma_numeral_number(index as nat);
            if i == index {
                assert(lookup(uuids, procs[k - 1].0) == Some(index));
            } else {
                assert(numeral(i as nat) != numeral(index as nat));
            }
        }
    }
}

/// The law of the processes of a card: where one UUID is of the card, its processes are those
/// that were printed for that UUID; where none is, it has none.
pub proof fn lemma_card_processes(gpus: Seq<Gpu>, b: Block, i: int)
    requires
        is_block_cards(gpus, b),
        b.saw_proc,
        0 <= i < gpus.len(),
        forall|x: int, y: int|
            0 <= x < b.procs.len() && 0 <= y < b.procs.len() && lookup(
                b.uuids,
                (#[trigger] b.procs[x]).0,
            ) == Some(gpus[i].index) && lookup(b.uuids, (#[trigger] b.procs[y]).0) == Some(
                gpus[i].index,
            ) ==> x == y,
    ensures
        forall|x: int|
            0 <= x < b.procs.len() && lookup(b.uuids, (#[trigger] b.procs[x]).0) == Some(
                gpus[i].index,
            ) ==> gpus[i].procs@ == b.procs[x].1,
        (forall|x: int|
            0 <= x < b.procs.len() ==> lookup(b.uuids, (#[trigger] b.procs[x]).0) != Some(
                gpus[i].index,
            )) ==> gpus[i].procs@.len() == 0,
{
    lemma_procs_found(b.procs, b.uuids, b.procs.len() as int, gpus[i].index);
    assert(gpus[i].procs@ == mems(block_procs(b), numeral(gpus[i].index as nat)));
}

} // verus!
