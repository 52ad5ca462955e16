//! The blocks of readings that a server sends every second.

use vstd::prelude::*;
use crate::decimal::{parse_double, parse_whole, parsed, parsed_whole};
use crate::double::Double;
use crate::model::{blank_host, Gpu, Host};
use crate::power::copy_all;
use crate::table::{lemma_lookup_mapped, lemma_put_mapped, lookup, mapped, put, Table};
use crate::text::{
    chars_of, is_str, lines, lines_of, numeral, part, split, split_at, starts, starts_with,
    string_of, texts, trim, trimmed, u64_numeral, words, words_of,
};

verus! {

broadcast use vstd::string::group_string_axioms;

// ---------------------------------------------------------------- numbers in a block

/// Whether a card or a host prints this for a value that it does not report.
pub open spec fn is_unreported(s: Seq<char>) -> bool {
    s.len() == 0 || s == "N/A"@ || s == "[N/A]"@ || s == "[Not Supported]"@ || s
        == "Not Supported"@ || s == "unknown"@
}

/// The number that a field gives, where it reports one.
pub open spec fn reading(s: Seq<char>) -> Option<Double> {
    let t = trimmed(s);
    if is_unreported(t) {
        None
    } else {
        parsed(t)
    }
}

/// The number that a field gives, where it reports one.
pub fn num(s: &[char]) -> (r: Option<Double>)
    ensures
        r == reading(s@),
{
    let t = trim(s);
    if t.len() == 0 || is_str(t, "N/A") || is_str(t, "[N/A]") || is_str(t, "[Not Supported]")
        || is_str(t, "Not Supported") || is_str(t, "unknown") {
        return None;
    }
    parse_double(t)
}

/// The integer of 32 bits that a numeral gives; it may start with a plus sign.
pub open spec fn parsed_u32(s: Seq<char>) -> Option<u32> {
    match parsed_whole(s, u32::MAX as nat) {
        Some(n) => Some(n as u32),
        None => None,
    }
}

/// The integer of 32 bits that a numeral gives.
pub fn parse_u32(s: &[char]) -> (r: Option<u32>)
    ensures
        r == parsed_u32(s@),
{
    match parse_whole(s, 0xffff_ffff) {
        Some(n) => Some(n as u32),
        None => None,
    }
}

// ---------------------------------------------------------------- a block

/// The parts of a block.
#[derive(Debug, Clone, Copy, PartialEq, Eq, Structural)]
pub enum Section {
    Gpu,
    Proc,
    Load,
    Nproc,
    Mem,
    Disk,
    Up,
    Other,
}

/// The part of a block that a tag starts.
pub open spec fn section_of(tag: Seq<char>) -> Section {
    if tag == "GPU"@ {
        Section::Gpu
    } else if tag == "PROC"@ {
        Section::Proc
    } else if tag == "LOAD"@ {
        Section::Load
    } else if tag == "NPROC"@ {
        Section::Nproc
    } else if tag == "MEM"@ {
        Section::Mem
    } else if tag == "DISK"@ {
        Section::Disk
    } else if tag == "UP"@ {
        Section::Up
    } else {
        Section::Other
    }
}

/// What a line says of a card.
pub ghost struct Card {
    pub index: u32,
    pub name: Seq<char>,
    pub util: Option<Double>,
    pub mem_used: Option<Double>,
    pub mem_total: Option<Double>,
    pub power: Option<Double>,
    pub power_limit: Option<Double>,
    pub temp: Option<Double>,
    pub fan: Option<Double>,
}

/// What is known of a card but for its processes.
pub open spec fn card_of(g: Gpu) -> Card {
    Card {
        index: g.index,
        name: g.name@,
        util: g.util,
        mem_used: g.mem_used,
        mem_total: g.mem_total,
        power: g.power,
        power_limit: g.power_limit,
        temp: g.temp,
        fan: g.fan,
    }
}

/// What the lines of a block have said so far: the cards, which card each UUID is, the memory
/// of the processes on each UUID, and the host.
pub ghost struct Block {
    pub section: Section,
    pub cards: Seq<Card>,
    pub uuids: Seq<(Seq<char>, u32)>,
    pub procs: Seq<(Seq<char>, Seq<Double>)>,
    pub host: Host,
    pub saw_host: bool,
    pub saw_proc: bool,
}

/// The fields of a line, between commas and without white space.
pub open spec fn fields(line: Seq<char>) -> Seq<Seq<char>> {
    Seq::new(split(line, ',').len(), |i: int| trimmed(split(line, ',')[i]))
}

/// What a line on a card adds.
pub open spec fn gpu_line(b: Block, line: Seq<char>) -> Block {
    let p = fields(line);
    if p.len() < 10 {
        b
    } else {
        match parsed_u32(p[0]) {
            Some(i) => Block {
                uuids: put(b.uuids, p[2], i),
                cards: b.cards.push(
                    Card {
                        index: i,
                        name: p[1],
                        util: reading(p[3]),
                        mem_used: reading(p[4]),
                        mem_total: reading(p[5]),
                        power: reading(p[6]),
                        power_limit: reading(p[7]),
                        temp: reading(p[8]),
                        fan: reading(p[9]),
                    },
                ),
                ..b
            },
            None => b,
        }
    }
}

/// The memory of the processes on a UUID.
pub open spec fn mems(procs: Seq<(Seq<char>, Seq<Double>)>, uuid: Seq<char>) -> Seq<Double> {
    match lookup(procs, uuid) {
        Some(m) => m,
        None => seq![],
    }
}

/// What a line on a process adds.
pub open spec fn proc_line(b: Block, line: Seq<char>) -> Block {
    let p = fields(line);
    let c = Block { saw_proc: true, ..b };
    if p.len() < 3 {
        c
    } else {
        match reading(p[2]) {
            Some(m) => Block { procs: put(b.procs, p[0], mems(b.procs, p[0]).push(m)), ..c },
            None => c,
        }
    }
}

/// What a line on the host adds.
pub open spec fn host_line(section: Section, h: Host, line: Seq<char>) -> Host {
    let f = words(line, 0);
    match section {
        Section::Load => Host {
            load1: if f.len() > 0 {
                reading(f[0])
            } else {
                None
            },
            ..h
        },
        Section::Nproc => Host {
            nproc: match parsed_u32(line) {
                Some(n) => n,
                None => 0,
            },
            ..h
        },
        Section::Mem => if f.len() > 2 {
            Host { ram_total_mb: reading(f[1]), ram_used_mb: reading(f[2]), ..h }
        } else {
            h
        },
        Section::Disk => if f.len() > 2 {
            Host { disk_total_kb: reading(f[1]), disk_used_kb: reading(f[2]), ..h }
        } else {
            h
        },
        Section::Up => Host { uptime_sec: reading(line), ..h },
        _ => h,
    }
}

/// What a line adds to a block.
#[verifier::opaque]
pub open spec fn block_line(b: Block, raw: Seq<char>) -> Block {
    let line = trimmed(raw);
    if starts(raw, "###"@) {
        Block { section: section_of(trimmed(raw.skip(3))), ..b }
    } else if line.len() == 0 {
        b
    } else {
        match b.section {
            Section::Gpu => gpu_line(b, line),
            Section::Proc => proc_line(b, line),
            Section::Other => b,
            s => Block { host: host_line(s, b.host, line), saw_host: true, ..b },
        }
    }
}

/// What the first `k` lines of a block say.
pub open spec fn block_after(ls: Seq<Seq<char>>, k: int) -> Block
    decreases k,
{
    if k <= 0 {
        Block {
            section: Section::Other,
            cards: seq![],
            uuids: seq![],
            procs: seq![],
            host: no_host(),
            saw_host: false,
            saw_proc: false,
        }
    } else {
        block_line(block_after(ls, k - 1), ls[k - 1])
    }
}

/// A host that has reported nothing.
pub open spec fn no_host() -> Host {
    Host {
        load1: None,
        nproc: 0,
        ram_total_mb: None,
        ram_used_mb: None,
        disk_total_kb: None,
        disk_used_kb: None,
        uptime_sec: None,
    }
}

/// The cards with one more, after all that are not behind it.
pub open spec fn insert_card(cards: Seq<Card>, c: Card) -> Seq<Card>
    decreases cards.len(),
{
    if cards.len() == 0 {
        seq![c]
    } else if cards.last().index <= c.index {
        cards.push(c)
    } else {
        insert_card(cards.drop_last(), c).push(cards.last())
    }
}

/// The cards by their index, those of one index as they came.
pub open spec fn by_index(cards: Seq<Card>) -> Seq<Card>
    decreases cards.len(),
{
    if cards.len() == 0 {
        seq![]
    } else {
        insert_card(by_index(cards.drop_last()), cards.last())
    }
}

/// The memory of the processes of each card, by the numeral of its index, from the first `k`
/// UUIDs. Where two UUIDs are of one card, the later one in the order of UUIDs stands.
pub open spec fn procs_by_index(
    procs: Seq<(Seq<char>, Seq<Double>)>,
    uuids: Seq<(Seq<char>, u32)>,
    k: int,
) -> Seq<(Seq<char>, Seq<Double>)>
    decreases k,
{
    if k <= 0 {
        seq![]
    } else {
        let m = procs_by_index(procs, uuids, k - 1);
        match lookup(uuids, procs[k - 1].0) {
            Some(i) => put(m, numeral(i as nat), procs[k - 1].1),
            None => m,
        }
    }
}

/// What a block says.
pub open spec fn block_of(text: Seq<char>) -> Block {
    block_after(lines(text), lines(text).len() as int)
}

/// The memory of the processes of each card that a block says.
pub open spec fn block_procs(b: Block) -> Seq<(Seq<char>, Seq<Double>)> {
    procs_by_index(b.procs, b.uuids, b.procs.len() as int)
}

/// The views of the series in a table.
pub open spec fn series_in(t: Seq<(Seq<char>, Vec<Double>)>) -> Seq<(Seq<char>, Seq<Double>)> {
    mapped(t, |v: Vec<Double>| v@)
}

/// What is known of cards but for their processes.
pub open spec fn cards_of(gpus: Seq<Gpu>) -> Seq<Card> {
    Seq::new(gpus.len(), |i: int| card_of(gpus[i]))
}

/// Whether `gpus` are the cards of a block, by their index, with their processes.
pub open spec fn is_block_cards(gpus: Seq<Gpu>, b: Block) -> bool {
    &&& cards_of(gpus) == by_index(b.cards)
    &&& forall|i: int|
        0 <= i < gpus.len() ==> (#[trigger] gpus[i]).procs@ == if b.saw_proc {
            mems(block_procs(b), numeral(gpus[i].index as nat))
        } else {
            seq![]
        }
}

proof fn lemma_insert_keeps(cards: Seq<Card>, c: Card)
    requires
        forall|i: int, j: int|
            0 <= i < j < cards.len() ==> (#[trigger] cards[i]).index <= (#[trigger] cards[j]).index,
    ensures
        insert_card(cards, c).len() == cards.len() + 1,
        forall|i: int, j: int|
            0 <= i < j < insert_card(cards, c).len() ==> (#[trigger] insert_card(
                cards,
                c,
            )[i]).index <= (#[trigger] insert_card(cards, c)[j]).index,
        insert_card(cards, c).to_multiset() == cards.to_multiset().insert(c),
        insert_card(cards, c).last().index == if cards.len() > 0 && cards.last().index > c.index {
            cards.last().index
        } else {
            c.index
        },
    decreases cards.len(),
{
    broadcast use vstd::seq_lib::group_to_multiset_ensures;

    let r = insert_card(cards, c);
    if cards.len() == 0 {
        assert(r =~= cards.push(c));
    } else if cards.last().index > c.index {
        let init = cards.drop_last();
        assert forall|i: int, j: int| 0 <= i < j < init.len() implies (#[trigger] init[i]).index
            <= (#[trigger] init[j]).index by {
            assert(init[i] == cards[i] && init[j] == cards[j]);
        }
        lemma_insert_keeps(init, c);
        let q = insert_card(init, c);
        assert forall|i: int, j: int| 0 <= i < j < r.len() implies (#[trigger] r[i]).index <= (
        #[trigger] r[j]).index by {
            if j < q.len() {
                assert(r[i] == q[i] && r[j] == q[j]);
            } else {
                assert(r[i] == q[i] && r[j] == cards.last());
                assert(q[i].index <= q.last().index);
                if init.len() > 0 {
                    assert(init.last() == cards[cards.len() - 2]);
                    assert(cards.last() == cards[cards.len() - 1]);
                }
            }
        }
        assert(cards =~= init.push(cards.last()));
    } else {
        assert forall|i: int, j: int| 0 <= i < j < r.len() implies (#[trigger] r[i]).index <= (
        #[trigger] r[j]).index by {
            if j == cards.len() {
                assert(r[i] == cards[i]);
                assert(cards[i].index <= cards[cards.len() - 1].index);
            } else {
                assert(r[i] == cards[i] && r[j] == cards[j]);
            }
        }
    }
}

/// The cards of a block come in the order of their index, and all of them do.
pub proof fn lemma_by_index(cards: Seq<Card>)
    ensures
        by_index(cards).len() == cards.len(),
        forall|i: int, j: int|
            0 <= i < j < by_index(cards).len() ==> (#[trigger] by_index(cards)[i]).index <= (
            #[trigger] by_index(cards)[j]).index,
        by_index(cards).to_multiset() == cards.to_multiset(),
    decreases cards.len(),
{
    broadcast use vstd::seq_lib::group_to_multiset_ensures;

    if cards.len() > 0 {
        lemma_by_index(cards.drop_last());
        lemma_insert_keeps(by_index(cards.drop_last()), cards.last());
        assert(cards =~= cards.drop_last().push(cards.last()));
    } else {
        assert(by_index(cards) =~= cards);
    }
}

/// What the lines of a block have said so far.
struct Reader {
    section: Section,
    gpus: Vec<Gpu>,
    uuids: Table<u32>,
    procs: Table<Vec<Double>>,
    host: Host,
    saw_host: bool,
    saw_proc: bool,
}

impl Reader {
    spec fn block(self) -> Block {
        Block {
            section: self.section,
            cards: cards_of(self.gpus@),
            uuids: self.uuids@,
            procs: series_in(self.procs@),
            host: self.host,
            saw_host: self.saw_host,
            saw_proc: self.saw_proc,
        }
    }

    spec fn no_procs(self) -> bool {
        forall|i: int| 0 <= i < self.gpus@.len() ==> (#[trigger] self.gpus@[i]).procs@.len() == 0
    }

    fn take_gpu(&mut self, line: &[char])
        requires
            old(self).no_procs(),
        ensures
            final(self).no_procs(),
            final(self).block() == gpu_line(old(self).block(), line@),
    {
        let ghost was = *self;
        let p = split_at(line, ',');
        assert(fields(line@).len() == p@.len());
        if p.len() < 10 {
            return ;
        }
        proof {
            assert forall|i: int| 0 <= i < p@.len() implies #[trigger] fields(line@)[i] == trimmed(
                p@[i]@,
            ) by {
                assert(texts(p@)[i] == p@[i]@);
            }
        }
        match parse_u32(trim(p[0].as_slice())) {
            Some(index) => {
                self.uuids.insert(string_of(trim(p[2].as_slice())), index);
                let g = Gpu {
                    index,
                    name: string_of(trim(p[1].as_slice())),
                    util: num(trim(p[3].as_slice())),
                    mem_used: num(trim(p[4].as_slice())),
                    mem_total: num(trim(p[5].as_slice())),
                    power: num(trim(p[6].as_slice())),
                    power_limit: num(trim(p[7].as_slice())),
                    temp: num(trim(p[8].as_slice())),
                    fan: num(trim(p[9].as_slice())),
                    procs: Vec::new(),
                };
                self.gpus.push(g);
                proof {
                    assert(cards_of(self.gpus@) =~= cards_of(was.gpus@).push(card_of(g)));
                    assert(fields(line@)[0] == trimmed(p@[0]@));
                    assert(fields(line@)[1] == trimmed(p@[1]@));
                    assert(fields(line@)[2] == trimmed(p@[2]@));
                    assert(fields(line@)[3] == trimmed(p@[3]@));
                    assert(fields(line@)[4] == trimmed(p@[4]@));
                    assert(fields(line@)[5] == trimmed(p@[5]@));
                    assert(fields(line@)[6] == trimmed(p@[6]@));
                    assert(fields(line@)[7] == trimmed(p@[7]@));
                    assert(fields(line@)[8] == trimmed(p@[8]@));
                    assert(fields(line@)[9] == trimmed(p@[9]@));
                }
            },
            None => {
                assert(fields(line@)[0] == trimmed(p@[0]@));
            },
        }
    }

    fn take_proc(&mut self, line: &[char])
        requires
            old(self).no_procs(),
        ensures
            final(self).no_procs(),
            final(self).block() == proc_line(old(self).block(), line@),
    {
        let ghost was = *self;
        self.saw_proc = true;
        let p = split_at(line, ',');
        assert(fields(line@).len() == p@.len());
        if p.len() < 3 {
            return ;
        }
        proof {
            assert(texts(p@)[0] == p@[0]@);
            assert(texts(p@)[2] == p@[2]@);
            assert(fields(line@)[0] == trimmed(p@[0]@));
            assert(fields(line@)[2] == trimmed(p@[2]@));
        }
        if let Some(m) = num(trim(p[2].as_slice())) {
            let uuid = string_of(trim(p[0].as_slice()));
            let ghost k = uuid@;
            let mut v: Vec<Double> = match self.procs.get(uuid.as_str()) {
                Some(v) => copy_all(v),
                None => Vec::new(),
            };
            proof {
                lemma_lookup_mapped(self.procs@, |v: Vec<Double>| v@, k);
                assert(v@ =~= mems(series_in(self.procs@), k));
            }
            v.push(m);
            proof {
                lemma_put_mapped(self.procs@, |v: Vec<Double>| v@, k, v);
            }
            self.procs.insert(uuid, v);
        }
    }

    fn take_host(&mut self, line: &[char])
        requires
            old(self).no_procs(),
            !(old(self).section is Gpu),
            !(old(self).section is Proc),
            !(old(self).section is Other),
        ensures
            final(self).no_procs(),
            final(self).block() == (Block {
                host: host_line(old(self).section, old(self).host, line@),
                saw_host: true,
                ..old(self).block()
            }),
    {
        self.saw_host = true;
        let f = words_of(line);
        assert(words(line@, 0).len() == f@.len());
        proof {
            if f@.len() > 0 {
                assert(texts(f@)[0] == f@[0]@);
            }
            if f@.len() > 2 {
                assert(texts(f@)[1] == f@[1]@);
                assert(texts(f@)[2] == f@[2]@);
            }
        }
        match self.section {
            Section::Load => {
                self.host.load1 = if f.len() > 0 {
                    num(f[0].as_slice())
                } else {
                    None
                };
            },
            Section::Nproc => {
                self.host.nproc = match parse_u32(line) {
                    Some(n) => n,
                    None => 0,
                };
            },
            Section::Mem => {
                if f.len() > 2 {
                    self.host.ram_total_mb = num(f[1].as_slice());
                    self.host.ram_used_mb = num(f[2].as_slice());
                }
            },
            Section::Disk => {
                if f.len() > 2 {
                    self.host.disk_total_kb = num(f[1].as_slice());
                    self.host.disk_used_kb = num(f[2].as_slice());
                }
            },
            Section::Up => {
                self.host.uptime_sec = num(line);
            },
            _ => {},
        }
    }

    fn take_line(&mut self, raw: &[char])
        requires
            old(self).no_procs(),
        ensures
            final(self).no_procs(),
            final(self).block() == block_line(old(self).block(), raw@),
    {
        proof {
            reveal(block_line);
        }
        if starts_with(raw, "###") {
            proof {
                reveal_strlit("###");
            }
            let tag = part(raw, 3, raw.len());
            assert(tag@ =~= raw@.skip(3));
            self.section = read_section(trim(tag));
            return ;
        }
        let line = trim(raw);
        if line.len() == 0 {
            return ;
        }
        match self.section {
            Section::Gpu => self.take_gpu(line),
            Section::Proc => self.take_proc(line),
            Section::Other => {},
            _ => self.take_host(line),
        }
    }
}

fn read_section(tag: &[char]) -> (r: Section)
    ensures
        r == section_of(tag@),
{
    if is_str(tag, "GPU") {
        Section::Gpu
    } else if is_str(tag, "PROC") {
        Section::Proc
    } else if is_str(tag, "LOAD") {
        Section::Load
    } else if is_str(tag, "NPROC") {
        Section::Nproc
    } else if is_str(tag, "MEM") {
        Section::Mem
    } else if is_str(tag, "DISK") {
        Section::Disk
    } else if is_str(tag, "UP") {
        Section::Up
    } else {
        Section::Other
    }
}

proof fn lemma_insert_card(cards: Seq<Card>, c: Card, at: int)
    requires
        0 <= at <= cards.len(),
        at > 0 ==> cards[at - 1].index <= c.index,
        forall|j: int| at <= j < cards.len() ==> (#[trigger] cards[j]).index > c.index,
    ensures
        insert_card(cards, c) == cards.insert(at, c),
    decreases cards.len(),
{
    if at == cards.len() {
        assert(cards.insert(at, c) =~= cards.push(c));
        if cards.len() == 0 {
            assert(seq![c] =~= cards.push(c));
        }
    } else {
        let init = cards.drop_last();
        assert(cards[cards.len() - 1].index > c.index);
        assert forall|j: int| at <= j < init.len() implies (#[trigger] init[j]).index > c.index by {
            assert(init[j] == cards[j]);
        }
        lemma_insert_card(init, c, at);
        assert(init.insert(at, c).push(cards.last()) =~= cards.insert(at, c));
    }
}

/// Sorts cards by their index, those of one index as they came.
fn sort_cards(mut gpus: Vec<Gpu>) -> (r: Vec<Gpu>)
    requires
        forall|i: int| 0 <= i < gpus@.len() ==> (#[trigger] gpus@[i]).procs@.len() == 0,
    ensures
        cards_of(r@) == by_index(cards_of(gpus@)),
        forall|i: int| 0 <= i < r@.len() ==> (#[trigger] r@[i]).procs@.len() == 0,
{
    let ghost all = cards_of(gpus@);
    let mut out: Vec<Gpu> = Vec::new();
    let ghost mut k: int = 0;
    assert(all.skip(0) =~= all);
    assert(cards_of(out@) =~= by_index(all.take(0)));
    while gpus.len() > 0
        invariant
            0 <= k <= all.len(),
            cards_of(gpus@) == all.skip(k),
            cards_of(out@) == by_index(all.take(k)),
            forall|i: int| 0 <= i < gpus@.len() ==> (#[trigger] gpus@[i]).procs@.len() == 0,
            forall|i: int| 0 <= i < out@.len() ==> (#[trigger] out@[i]).procs@.len() == 0,
        decreases gpus@.len(),
    {
        let ghost before_remove = gpus@;
        let g = gpus.remove(0);
        let ghost c = card_of(g);
        proof {
            assert(cards_of(before_remove)[0] == c);
            assert(all.skip(k).len() == before_remove.len());
            assert(all.skip(k)[0] == all[k]);
            assert forall|j: int| 0 <= j < gpus@.len() implies #[trigger] cards_of(gpus@)[j]
                == all.skip(k + 1)[j] by {
                assert(gpus@[j] == before_remove[j + 1]);
                assert(cards_of(before_remove)[j + 1] == all.skip(k)[j + 1]);
            }
            assert(cards_of(gpus@) =~= all.skip(k + 1));
            assert(all.take(k + 1).drop_last() =~= all.take(k));
        }
        let mut at: usize = out.len();
        while at > 0 && out[at - 1].index > g.index
            invariant
                at <= out@.len(),
                forall|j: int| at <= j < out@.len() ==> (#[trigger] out@[j]).index > g.index,
            decreases at,
        {
            at = at - 1;
        }
        let ghost held = out@;
        proof {
            let cs = cards_of(held);
            assert forall|j: int| at <= j < cs.len() implies (#[trigger] cs[j]).index > c.index by {
                assert(held[j].index > g.index);
            }
            lemma_insert_card(cs, c, at as int);
        }
        out.insert(at, g);
        proof {
            assert(cards_of(out@) =~= cards_of(held).insert(at as int, c));
            k = k + 1;
        }
    }
    proof {
        assert(k == all.len()) by {
            assert(all.skip(k).len() == 0);
        }
        assert(all.take(k) =~= all);
    }
    out
}

fn index_procs(procs: &Table<Vec<Double>>, uuids: &Table<u32>) -> (r: Table<Vec<Double>>)
    ensures
        series_in(r@) == procs_by_index(
            series_in(procs@),
            uuids@,
            series_in(procs@).len() as int,
        ),
{
    let ghost all = series_in(procs@);
    let mut out: Table<Vec<Double>> = Table::new();
    let mut k: usize = 0;
    assert(series_in(out@) =~= procs_by_index(all, uuids@, 0));
    while k < procs.entries.len()
        invariant
            k <= procs@.len(),
            all == series_in(procs@),
            series_in(out@) == procs_by_index(all, uuids@, k as int),
        decreases procs@.len() - k,
    {
        assert(all[k as int] == (procs@[k as int].0, procs@[k as int].1@));
        if let Some(i) = uuids.get(procs.entries[k].0.as_str()) {
            let v = copy_all(&procs.entries[k].1);
            let n = u64_numeral(*i as u64);
            proof {
                lemma_put_mapped(out@, |v: Vec<Double>| v@, n@, v);
            }
            out.insert(n, v);
        }
        k = k + 1;
    }
    out
}

fn read_lines(text: &str) -> (rd: Reader)
    ensures
        rd.no_procs(),
        rd.block() == block_of(text@),
{
    let v = chars_of(text);
    let ls = lines_of(v.as_slice());
    let ghost all = lines(text@);
    let mut rd = Reader {
        section: Section::Other,
        gpus: Vec::new(),
        uuids: Table::new(),
        procs: Table::new(),
        host: blank_host(),
        saw_host: false,
        saw_proc: false,
    };
    let mut k: usize = 0;
    proof {
        assert(cards_of(rd.gpus@) =~= seq![]);
        assert(series_in(rd.procs@) =~= seq![]);
        assert(rd.uuids@ =~= seq![]);
        assert(rd.block() == block_after(all, 0));
    }
    while k < ls.len()
        invariant
            k <= ls@.len(),
            all == texts(ls@),
            rd.no_procs(),
            rd.block() == block_after(all, k as int),
        decreases ls@.len() - k,
    {
        assert(all[k as int] == ls@[k as int]@);
        rd.take_line(ls[k].as_slice());
        k = k + 1;
    }
    rd
}

fn attach_procs(mut gpus: Vec<Gpu>, procs: &Table<Vec<Double>>) -> (r: Vec<Gpu>)
    ensures
        cards_of(r@) == cards_of(gpus@),
        forall|i: int|
            0 <= i < r@.len() ==> (#[trigger] r@[i]).procs@ == mems(
                series_in(procs@),
                numeral(r@[i].index as nat),
            ),
{
    let ghost cards = cards_of(gpus@);
    let ghost by_card = series_in(procs@);
    let mut i: usize = 0;
    while i < gpus.len()
        invariant
            i <= gpus@.len(),
            cards_of(gpus@) == cards,
            by_card == series_in(procs@),
            forall|j: int|
                0 <= j < i ==> (#[trigger] gpus@[j]).procs@ == mems(
                    by_card,
                    numeral(gpus@[j].index as nat),
                ),
        decreases gpus@.len() - i,
    {
        let ghost held = gpus@;
        let n = u64_numeral(gpus[i].index as u64);
        let p: Vec<Double> = match procs.get(n.as_str()) {
            Some(v) => copy_all(v),
            None => Vec::new(),
        };
        proof {
            lemma_lookup_mapped(procs@, |v: Vec<Double>| v@, n@);
            assert(p@ =~= mems(by_card, n@));
        }
        gpus[i].procs = p;
        proof {
            assert forall|j: int| 0 <= j < cards.len() implies #[trigger] cards_of(gpus@)[j]
                == cards[j] by {
                assert(cards_of(held)[j] == card_of(held[j]));
            }
            assert(cards_of(gpus@) =~= cards);
        }
        i = i + 1;
    }
    gpus
}

/// Reads one block into what it carries: the cards, the host and the processes. A fast block
/// carries cards only; the last host is then kept by the caller, so that a card does not
/// flicker between full and blank.
pub fn parse_block(text: &str) -> (r: (Vec<Gpu>, Option<Host>, Option<Table<Vec<Double>>>))
    ensures
        ({
            let b = block_of(text@);
            &&& is_block_cards(r.0@, b)
            &&& r.1 == if b.saw_host {
                Some(b.host)
            } else {
                None
            }
            &&& match r.2 {
                Some(t) => b.saw_proc && series_in(t@) == block_procs(b),
                None => !b.saw_proc,
            }
        }),
{
    let rd = read_lines(text);
    let ghost b = block_of(text@);
    let procs = index_procs(&rd.procs, &rd.uuids);
    let sorted = sort_cards(rd.gpus);
    let gpus: Vec<Gpu> = if rd.saw_proc {
        attach_procs(sorted, &procs)
    } else {
        proof {
            assert forall|j: int| 0 <= j < sorted@.len() implies (#[trigger] sorted@[j]).procs@
                == Seq::<Double>::empty() by {
                assert(sorted@[j].procs@ =~= Seq::<Double>::empty());
            }
        }
        sorted
    };
    let host: Option<Host> = if rd.saw_host {
        Some(rd.host)
    } else {
        None
    };
    let by_card: Option<Table<Vec<Double>>> = if rd.saw_proc {
        Some(procs)
    } else {
        None
    };
    (gpus, host, by_card)
}

} // verus!
