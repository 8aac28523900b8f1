use vstd::prelude::*;

use crate::constants::{BLOCK_SIZE, DISK_BLOCKS, MAX_SEGMENTS, PAGE_SIZE, PM_SIZE, PT_SIZE};
use crate::memory::{
    disk_index, initial_free_frames, lemma_filter_free_stack, lemma_free_stack_unique,
    valid_free_stack, page_entry_addr, segment_pt_addr, segment_size_addr, Disk,
    FreeFrameList, PhysicalMemory,
};
use crate::text::{
    append_decimal, chars_of, decimal, find_line_end, is_digit, is_plain_word,
    is_space, lemma_decimal_digits, lemma_decimal_reads_back, lemma_line_end_at,
    lemma_spaced_len, lemma_spaced_no_line_break, lemma_words_of_spaced, line_end, parse_i32_at,
    parse_i32_word, parse_u32_at, parse_u32_word, spaced, unsigned_digits, word_spans_of, words,
};

verus! {

/// The initial memory image: segment-table entries `(segment, size,
/// page-table location)` and page-table entries `(segment, page, frame
/// location)`. A location that is negative names a disk block.
#[derive(Debug)]
pub struct InitData {
    pub st_entries: Vec<(u32, i32, i32)>,
    pub pt_entries: Vec<(u32, u32, i32)>,
}

impl Default for InitData {
    fn default() -> (d: Self)
        ensures
            d.st_entries@ == Seq::<(u32, i32, i32)>::empty(),
            d.pt_entries@ == Seq::<(u32, u32, i32)>::empty(),
    {
        InitData { st_entries: Vec::new(), pt_entries: Vec::new() }
    }
}

/// Message for a file with no lines.
pub open spec fn empty_file_message() -> Seq<char> {
    "Init file is empty"@
}

/// Message for a segment-table line whose word count `n` is not a multiple of three.
pub open spec fn st_count_message(n: nat) -> Seq<char> {
    "ST line has "@ + decimal(n) + " tokens, expected multiple of 3"@
}

/// Message for a page-table line whose word count `n` is not a multiple of three.
pub open spec fn pt_count_message(n: nat) -> Seq<char> {
    "PT line has "@ + decimal(n) + " tokens, expected multiple of 3"@
}

/// Message for a segment number `s` beyond the segment table.
pub open spec fn segment_range_message(s: u32) -> Seq<char> {
    "Segment number "@ + decimal(s as nat) + " exceeds max "@ + decimal((MAX_SEGMENTS - 1) as nat)
}

/// Message for a page number `p` beyond a page table.
pub open spec fn page_range_message(p: u32) -> Seq<char> {
    "Page number "@ + decimal(p as nat) + " exceeds max "@ + decimal((PT_SIZE - 1) as nat)
}

/// One segment-table entry from its three words.
pub open spec fn st_entry(s: Seq<char>, z: Seq<char>, f: Seq<char>) -> Result<
    (u32, i32, i32),
    Seq<char>,
> {
    match parse_u32_word(s) {
        None => Err("Invalid segment number: "@ + s),
        Some(sv) => match parse_i32_word(z) {
            None => Err("Invalid segment size: "@ + z),
            Some(zv) => match parse_i32_word(f) {
                None => Err("Invalid frame/block: "@ + f),
                Some(fv) => if sv >= MAX_SEGMENTS {
                    Err(segment_range_message(sv))
                } else {
                    Ok((sv, zv, fv))
                },
            },
        },
    }
}

/// One page-table entry from its three words.
pub open spec fn pt_entry(s: Seq<char>, p: Seq<char>, f: Seq<char>) -> Result<
    (u32, u32, i32),
    Seq<char>,
> {
    match parse_u32_word(s) {
        None => Err("Invalid segment number: "@ + s),
        Some(sv) => match parse_u32_word(p) {
            None => Err("Invalid page number: "@ + p),
            Some(pv) => match parse_i32_word(f) {
                None => Err("Invalid frame/block: "@ + f),
                Some(fv) => if sv >= MAX_SEGMENTS {
                    Err(segment_range_message(sv))
                } else if pv >= PT_SIZE {
                    Err(page_range_message(pv))
                } else {
                    Ok((sv, pv, fv))
                },
            },
        },
    }
}

/// The segment-table entries of the first `k` word triples of `ws`, or the
/// message of the first triple that fails.
pub open spec fn st_triples(ws: Seq<Seq<char>>, k: int) -> Result<Seq<(u32, i32, i32)>, Seq<char>>
    decreases k,
{
    if k <= 0 {
        Ok(Seq::empty())
    } else {
        match st_triples(ws, k - 1) {
            Err(m) => Err(m),
            Ok(es) => match st_entry(ws[3 * k - 3], ws[3 * k - 2], ws[3 * k - 1]) {
                Err(m) => Err(m),
                Ok(e) => Ok(es.push(e)),
            },
        }
    }
}

/// The page-table entries of the first `k` word triples of `ws`, or the
/// message of the first triple that fails.
pub open spec fn pt_triples(ws: Seq<Seq<char>>, k: int) -> Result<Seq<(u32, u32, i32)>, Seq<char>>
    decreases k,
{
    if k <= 0 {
        Ok(Seq::empty())
    } else {
        match pt_triples(ws, k - 1) {
            Err(m) => Err(m),
            Ok(es) => match pt_entry(ws[3 * k - 3], ws[3 * k - 2], ws[3 * k - 1]) {
                Err(m) => Err(m),
                Ok(e) => Ok(es.push(e)),
            },
        }
    }
}

/// The segment-table line `line`: its words taken three at a time.
pub open spec fn parse_st_spec(line: Seq<char>) -> Result<Seq<(u32, i32, i32)>, Seq<char>> {
    let ws = words(line);
    if ws.len() == 0 {
        Ok(Seq::empty())
    } else if ws.len() % 3 != 0 {
        Err(st_count_message(ws.len()))
    } else {
        st_triples(ws, (ws.len() / 3) as int)
    }
}

/// The page-table line `line`: its words taken three at a time.
pub open spec fn parse_pt_spec(line: Seq<char>) -> Result<Seq<(u32, u32, i32)>, Seq<char>> {
    let ws = words(line);
    if ws.len() == 0 {
        Ok(Seq::empty())
    } else if ws.len() % 3 != 0 {
        Err(pt_count_message(ws.len()))
    } else {
        pt_triples(ws, (ws.len() / 3) as int)
    }
}

/// The initialisation file `content`: the first line holds the segment-table
/// entries, the second line, if there is one, the page-table entries; later
/// lines are ignored.
pub open spec fn parse_spec(content: Seq<char>) -> Result<
    (Seq<(u32, i32, i32)>, Seq<(u32, u32, i32)>),
    Seq<char>,
> {
    if content.len() == 0 {
        Err(empty_file_message())
    } else {
        let end0 = line_end(content, 0);
        match parse_st_spec(content.subrange(0, end0)) {
            Err(m) => Err(m),
            Ok(st) => if end0 + 1 < content.len() {
                match parse_pt_spec(content.subrange(end0 + 1, line_end(content, end0 + 1))) {
                    Err(m) => Err(m),
                    Ok(pt) => Ok((st, pt)),
                }
            } else {
                Ok((st, Seq::empty()))
            },
        }
    }
}

/// Once the triples fail, taking more of them fails with the same message.
proof fn lemma_st_triples_error_persists(ws: Seq<Seq<char>>, k: int, n: int)
    requires
        0 <= k <= n,
        st_triples(ws, k) is Err,
    ensures
        st_triples(ws, n) == st_triples(ws, k),
    decreases n - k,
{
    if k < n {
        lemma_st_triples_error_persists(ws, k, n - 1);
    }
}

/// Once the triples fail, taking more of them fails with the same message.
proof fn lemma_pt_triples_error_persists(ws: Seq<Seq<char>>, k: int, n: int)
    requires
        0 <= k <= n,
        pt_triples(ws, k) is Err,
    ensures
        pt_triples(ws, n) == pt_triples(ws, k),
    decreases n - k,
{
    if k < n {
        lemma_pt_triples_error_persists(ws, k, n - 1);
    }
}

/// `prefix` followed by the characters `line[start..end]`.
fn message_with_word(prefix: &str, line: &str, start: usize, end: usize) -> (m: String)
    requires
        start <= end <= line@.len(),
    ensures
        m@ == prefix@ + line@.subrange(start as int, end as int),
{
    let mut m = String::new();
    m.append(prefix);
    m.append(line.substring_char(start, end));
    assert(m@ =~= prefix@ + line@.subrange(start as int, end as int));
    m
}

/// `"Segment number <s> exceeds max 511"`.
fn segment_range_error(s: u32) -> (m: String)
    ensures
        m@ == segment_range_message(s),
{
    let mut m = String::new();
    m.append("Segment number ");
    append_decimal(&mut m, s as u64);
    m.append(" exceeds max ");
    append_decimal(&mut m, (MAX_SEGMENTS - 1) as u64);
    assert(m@ =~= segment_range_message(s));
    m
}

/// `"Page number <p> exceeds max 511"`.
fn page_range_error(p: u32) -> (m: String)
    ensures
        m@ == page_range_message(p),
{
    let mut m = String::new();
    m.append("Page number ");
    append_decimal(&mut m, p as u64);
    m.append(" exceeds max ");
    append_decimal(&mut m, (PT_SIZE - 1) as u64);
    assert(m@ =~= page_range_message(p));
    m
}

/// `"<table> line has <n> tokens, expected multiple of 3"`.
fn count_error(table: &str, n: usize) -> (m: String)
    ensures
        m@ == table@ + " line has "@ + decimal(n as nat) + " tokens, expected multiple of 3"@,
{
    let mut m = String::new();
    m.append(table);
    m.append(" line has ");
    append_decimal(&mut m, n as u64);
    m.append(" tokens, expected multiple of 3");
    assert(m@ =~= table@ + " line has "@ + decimal(n as nat) + " tokens, expected multiple of 3"@);
    m
}

impl InitData {
    /// Parses the segment-table line.
    fn parse_st_line(line: &str) -> (r: Result<Vec<(u32, i32, i32)>, String>)
        ensures
            match r {
                Ok(es) => parse_st_spec(line@) == Ok::<Seq<(u32, i32, i32)>, Seq<char>>(es@),
                Err(m) => parse_st_spec(line@) == Err::<Seq<(u32, i32, i32)>, Seq<char>>(m@),
            },
    {
        let chars = chars_of(line);
        let spans = word_spans_of(&chars);
        let ghost ws = words(line@);
        let n = spans.len();
        if n == 0 {
            return Ok(Vec::new());
        }
        if n % 3 != 0 {
            let m = count_error("ST", n);
            proof {
                reveal_strlit("ST");
                reveal_strlit(" line has ");
                reveal_strlit("ST line has ");
            }
            assert(m@ =~= st_count_message(n as nat));
            return Err(m);
        }
        let mut entries: Vec<(u32, i32, i32)> = Vec::new();
        let mut k: usize = 0;
        while k < n / 3
            invariant
                k <= n / 3,
                n == spans@.len(),
                n == ws.len(),
                n % 3 == 0,
                chars@ == line@,
                ws == words(line@),
                forall|j: int|
                    0 <= j < spans@.len() ==> (#[trigger] spans@[j]).0 <= spans@[j].1
                        <= chars@.len(),
                forall|j: int|
                    0 <= j < spans@.len() ==> #[trigger] ws[j] == chars@.subrange(
                        spans@[j].0 as int,
                        spans@[j].1 as int,
                    ),
                st_triples(ws, k as int) == Ok::<Seq<(u32, i32, i32)>, Seq<char>>(entries@),
            decreases n / 3 - k,
        {
            let (s0, s1) = spans[3 * k];
            let (z0, z1) = spans[3 * k + 1];
            let (f0, f1) = spans[3 * k + 2];
            assert(ws[3 * k as int] == chars@.subrange(s0 as int, s1 as int));
            assert(ws[3 * k as int + 1] == chars@.subrange(z0 as int, z1 as int));
            assert(ws[3 * k as int + 2] == chars@.subrange(f0 as int, f1 as int));
            let ghost kk = k as int + 1;
            assert(3 * kk - 3 == 3 * k as int && 3 * kk - 2 == 3 * k as int + 1 && 3 * kk - 1 == 3
                * k as int + 2);
            let r = match parse_u32_at(&chars, s0, s1) {
                None => Err(message_with_word("Invalid segment number: ", line, s0, s1)),
                Some(s) => match parse_i32_at(&chars, z0, z1) {
                    None => Err(message_with_word("Invalid segment size: ", line, z0, z1)),
                    Some(z) => match parse_i32_at(&chars, f0, f1) {
                        None => Err(message_with_word("Invalid frame/block: ", line, f0, f1)),
                        Some(f) => {
                            if s >= MAX_SEGMENTS as u32 {
                                Err(segment_range_error(s))
                            } else {
                                Ok((s, z, f))
                            }
                        },
                    },
                },
            };
            match r {
                Err(m) => {
                    proof {
                        lemma_st_triples_error_persists(ws, kk, (n / 3) as int);
                    }
                    return Err(m);
                },
                Ok(e) => {
                    entries.push(e);
                },
            }
            k = k + 1;
        }
        Ok(entries)
    }

    /// Parses the page-table line.
    fn parse_pt_line(line: &str) -> (r: Result<Vec<(u32, u32, i32)>, String>)
        ensures
            match r {
                Ok(es) => parse_pt_spec(line@) == Ok::<Seq<(u32, u32, i32)>, Seq<char>>(es@),
                Err(m) => parse_pt_spec(line@) == Err::<Seq<(u32, u32, i32)>, Seq<char>>(m@),
            },
    {
        let chars = chars_of(line);
        let spans = word_spans_of(&chars);
        let ghost ws = words(line@);
        let n = spans.len();
        if n == 0 {
            return Ok(Vec::new());
        }
        if n % 3 != 0 {
            let m = count_error("PT", n);
            proof {
                reveal_strlit("PT");
                reveal_strlit(" line has ");
                reveal_strlit("PT line has ");
            }
            assert(m@ =~= pt_count_message(n as nat));
            return Err(m);
        }
        let mut entries: Vec<(u32, u32, i32)> = Vec::new();
        let mut k: usize = 0;
        while k < n / 3
            invariant
                k <= n / 3,
                n == spans@.len(),
                n == ws.len(),
                n % 3 == 0,
                chars@ == line@,
                ws == words(line@),
                forall|j: int|
                    0 <= j < spans@.len() ==> (#[trigger] spans@[j]).0 <= spans@[j].1
                        <= chars@.len(),
                forall|j: int|
                    0 <= j < spans@.len() ==> #[trigger] ws[j] == chars@.subrange(
                        spans@[j].0 as int,
                        spans@[j].1 as int,
                    ),
                pt_triples(ws, k as int) == Ok::<Seq<(u32, u32, i32)>, Seq<char>>(entries@),
            decreases n / 3 - k,
        {
            let (s0, s1) = spans[3 * k];
            let (p0, p1) = spans[3 * k + 1];
            let (f0, f1) = spans[3 * k + 2];
            assert(ws[3 * k as int] == chars@.subrange(s0 as int, s1 as int));
            assert(ws[3 * k as int + 1] == chars@.subrange(p0 as int, p1 as int));
            assert(ws[3 * k as int + 2] == chars@.subrange(f0 as int, f1 as int));
            let ghost kk = k as int + 1;
            assert(3 * kk - 3 == 3 * k as int && 3 * kk - 2 == 3 * k as int + 1 && 3 * kk - 1 == 3
                * k as int + 2);
            let r = match parse_u32_at(&chars, s0, s1) {
                None => Err(message_with_word("Invalid segment number: ", line, s0, s1)),
                Some(s) => match parse_u32_at(&chars, p0, p1) {
                    None => Err(message_with_word("Invalid page number: ", line, p0, p1)),
                    Some(p) => match parse_i32_at(&chars, f0, f1) {
                        None => Err(message_with_word("Invalid frame/block: ", line, f0, f1)),
                        Some(f) => {
                            if s >= MAX_SEGMENTS as u32 {
                                Err(segment_range_error(s))
                            } else if p >= PT_SIZE as u32 {
                                Err(page_range_error(p))
                            } else {
                                Ok((s, p, f))
                            }
                        },
                    },
                },
            };
            match r {
                Err(m) => {
                    proof {
                        lemma_pt_triples_error_persists(ws, kk, (n / 3) as int);
                    }
                    return Err(m);
                },
                Ok(e) => {
                    entries.push(e);
                },
            }
            k = k + 1;
        }
        Ok(entries)
    }

    /// Parses an initialisation file: the segment-table line, then the
    /// page-table line if there is one. On failure the message names the
    /// first problem found.
    pub fn parse(content: &str) -> (r: Result<Self, String>)
        ensures
            match r {
                Ok(d) => parse_spec(content@) == Ok::<
                    (Seq<(u32, i32, i32)>, Seq<(u32, u32, i32)>),
                    Seq<char>,
                >((d.st_entries@, d.pt_entries@)),
                Err(m) => parse_spec(content@) == Err::<
                    (Seq<(u32, i32, i32)>, Seq<(u32, u32, i32)>),
                    Seq<char>,
                >(m@),
            },
    {
        let chars = chars_of(content);
        if chars.len() == 0 {
            let mut m = String::new();
            m.append("Init file is empty");
            assert(m@ =~= empty_file_message());
            return Err(m);
        }
        let end0 = find_line_end(&chars, 0);
        let st_entries = match Self::parse_st_line(content.substring_char(0, end0)) {
            Ok(es) => es,
            Err(m) => return Err(m),
        };
        let pt_entries = if end0 < chars.len() && end0 + 1 < chars.len() {
            let end1 = find_line_end(&chars, end0 + 1);
            match Self::parse_pt_line(content.substring_char(end0 + 1, end1)) {
                Ok(es) => es,
                Err(m) => return Err(m),
            }
        } else {
            Vec::new()
        };
        Ok(InitData { st_entries, pt_entries })
    }

    /// Installs the image as `apply` does, or returns `None` where `apply`
    /// would fail (memory and disk may then have changed).
    pub fn try_apply(&self, pm: &mut PhysicalMemory, disk: &mut Disk) -> (r: Option<FreeFrameList>)
        requires
            old(pm).wf(),
            old(disk).wf(),
        ensures
            final(pm).wf(),
            final(disk).wf(),
            installed_image(self.st_entries@, self.pt_entries@, old(pm)@, old(disk)@) == match r {
                Some(_) => Some((final(pm)@, final(disk)@)),
                None => None,
            },
            r matches Some(ffl) ==> ffl.wf() && ffl@ == free_frames_after_image(
                self.st_entries@,
                self.pt_entries@,
            ) && forall|f: u32| #[trigger]
                ffl@.contains(f) <==> initial_free_frames().contains(f) && !named_frame(
                    self.st_entries@,
                    self.pt_entries@,
                    f,
                ),
    {
        let mut ffl = FreeFrameList::new();
        assert(valid_free_stack(initial_free_frames()));
        let ghost st = self.st_entries@;
        let ghost pt = self.pt_entries@;
        let mut i: usize = 0;
        while i < self.st_entries.len()
            invariant
                i <= st.len(),
                st == self.st_entries@,
                pm.wf(),
                ffl.wf(),
                disk@ == old(disk)@,
                disk.wf(),
                image_after_st_entries(st.take(i as int), old(pm)@) == Some(pm@),
                forall|f: u32| #[trigger]
                    ffl@.contains(f) <==> initial_free_frames().contains(f) && !named_frame(
                        st.take(i as int),
                        Seq::empty(),
                        f,
                    ),
            decreases st.len() - i,
        {
            let (segment, size, pt_location) = self.st_entries[i];
            proof {
                assert(st.take(i as int + 1).drop_last() =~= st.take(i as int));
            }
            if segment >= (PM_SIZE / 2) as u32 {
                proof {
                    if image_after_st_entries(st, old(pm)@) is Some {
                        lemma_st_prefix_some(st, old(pm)@, i as int + 1);
                    }
                }
                return None;
            }
            pm.set_segment_entry(segment, size, pt_location);
            if pt_location > 0 {
                ffl.mark_occupied(pt_location as u32);
            }
            proof {
                assert forall|f: u32|
                    named_frame(st.take(i as int + 1), Seq::empty(), f) <==> (named_frame(
                        st.take(i as int),
                        Seq::empty(),
                        f,
                    ) || (pt_location > 0 && f == pt_location as u32)) by {
                    if named_frame(st.take(i as int + 1), Seq::empty(), f) {
                        let k = choose|k: int|
                            0 <= k < st.take(i as int + 1).len() && #[trigger] st.take(
                                i as int + 1,
                            )[k].2 > 0 && st.take(i as int + 1)[k].2 as u32 == f;
                        if k < i {
                            assert(st.take(i as int)[k] == st.take(i as int + 1)[k]);
                        }
                    }
                    if named_frame(st.take(i as int), Seq::empty(), f) {
                        let k = choose|k: int|
                            0 <= k < st.take(i as int).len() && #[trigger] st.take(i as int)[k].2
                                > 0 && st.take(i as int)[k].2 as u32 == f;
                        assert(st.take(i as int + 1)[k] == st.take(i as int)[k]);
                    }
                    if pt_location > 0 && f == pt_location as u32 {
                        assert(st.take(i as int + 1)[i as int].2 == pt_location);
                    }
                }
            }
            i = i + 1;
        }
        assert(st.take(st.len() as int) =~= st);
        let ghost mem_st = pm@;
        let mut j: usize = 0;
        assert(pt.take(0) =~= Seq::<(u32, u32, i32)>::empty());
        while j < self.pt_entries.len()
            invariant
                j <= pt.len(),
                st == self.st_entries@,
                pt == self.pt_entries@,
                pm.wf(),
                disk.wf(),
                ffl.wf(),
                image_after_st_entries(st, old(pm)@) == Some(mem_st),
                image_after_pt_entries(pt.take(j as int), mem_st, old(disk)@) == Some(
                    (pm@, disk@),
                ),
                forall|f: u32| #[trigger]
                    ffl@.contains(f) <==> initial_free_frames().contains(f) && !named_frame(
                        st,
                        pt.take(j as int),
                        f,
                    ),
            decreases pt.len() - j,
        {
            let (segment, page, frame_location) = self.pt_entries[j];
            proof {
                assert(pt.take(j as int + 1).drop_last() =~= pt.take(j as int));
            }
            let defined = segment < (PM_SIZE / 2) as u32 && {
                let pt_location = pm.get_segment_pt_location(segment);
                if pt_location >= 0 {
                    (pt_location as u64) * (PAGE_SIZE as u64) + (page as u64) < PM_SIZE as u64
                } else {
                    pt_location != i32::MIN && ((-pt_location) as usize) < DISK_BLOCKS && (page
                        as usize) < BLOCK_SIZE
                }
            };
            if !defined {
                proof {
                    if image_after_pt_entries(pt, mem_st, old(disk)@) is Some {
                        lemma_pt_prefix_some(pt, mem_st, old(disk)@, j as int + 1);
                    }
                }
                return None;
            }
            let pt_location = pm.get_segment_pt_location(segment);
            if pt_location >= 0 {
                pm.set_page_entry(pt_location, page, frame_location);
            } else {
                let block = (-pt_location) as usize;
                disk.write(block, page as usize, frame_location);
            }
            if frame_location > 0 {
                ffl.mark_occupied(frame_location as u32);
            }
            proof {
                assert forall|f: u32|
                    named_frame(st, pt.take(j as int + 1), f) <==> (named_frame(
                        st,
                        pt.take(j as int),
                        f,
                    ) || (frame_location > 0 && f == frame_location as u32)) by {
                    if named_frame(st, pt.take(j as int + 1), f) && !(exists|k: int|
                        0 <= k < st.len() && #[trigger] st[k].2 > 0 && st[k].2 as u32 == f) {
                        let k = choose|k: int|
                            0 <= k < pt.take(j as int + 1).len() && #[trigger] pt.take(
                                j as int + 1,
                            )[k].2 > 0 && pt.take(j as int + 1)[k].2 as u32 == f;
                        if k < j {
                            assert(pt.take(j as int)[k] == pt.take(j as int + 1)[k]);
                        }
                    }
                    if named_frame(st, pt.take(j as int), f) && !(exists|k: int|
                        0 <= k < st.len() && #[trigger] st[k].2 > 0 && st[k].2 as u32 == f) {
                        let k = choose|k: int|
                            0 <= k < pt.take(j as int).len() && #[trigger] pt.take(j as int)[k].2
                                > 0 && pt.take(j as int)[k].2 as u32 == f;
                        assert(pt.take(j as int + 1)[k] == pt.take(j as int)[k]);
                    }
                    if frame_location > 0 && f == frame_location as u32 {
                        assert(pt.take(j as int + 1)[j as int].2 == frame_location);
                    }
                }
            }
            j = j + 1;
        }
        assert(pt.take(pt.len() as int) =~= pt);
        proof {
            let keep = |f: u32| !named_frame(st, pt, f);
            lemma_filter_free_stack(initial_free_frames(), keep);
            lemma_free_stack_unique(ffl@, free_frames_after_image(st, pt));
        }
        Some(ffl)
    }

    /// Installs the image: writes each segment-table entry into memory, then
    /// each page-table entry into its segment's page table (in memory when the
    /// segment's page-table location is not negative, in the disk block it
    /// names when negative). Returns the free-frame list without the frames
    /// that the entries name as locations.
    pub fn apply(&self, pm: &mut PhysicalMemory, disk: &mut Disk) -> (ffl: FreeFrameList)
        requires
            old(pm).wf(),
            old(disk).wf(),
            installed_image(self.st_entries@, self.pt_entries@, old(pm)@, old(disk)@) is Some,
        ensures
            final(pm).wf(),
            final(disk).wf(),
            installed_image(self.st_entries@, self.pt_entries@, old(pm)@, old(disk)@) == Some(
                (final(pm)@, final(disk)@),
            ),
            ffl.wf(),
            ffl@ == free_frames_after_image(self.st_entries@, self.pt_entries@),
            forall|f: u32| #[trigger]
                ffl@.contains(f) <==> initial_free_frames().contains(f) && !named_frame(
                    self.st_entries@,
                    self.pt_entries@,
                    f,
                ),
    {
        match self.try_apply(pm, disk) {
            Some(ffl) => ffl,
            None => {
                proof {
                    assert(false);
                }
                FreeFrameList::new()
            },
        }
    }
}

/// Memory and disk after installing the image with segment-table entries
/// `st` and page-table entries `pt`; `None` where installing fails.
pub open spec fn installed_image(
    st: Seq<(u32, i32, i32)>,
    pt: Seq<(u32, u32, i32)>,
    mem: Seq<i32>,
    disk: Seq<i32>,
) -> Option<(Seq<i32>, Seq<i32>)> {
    match image_after_st_entries(st, mem) {
        None => None,
        Some(m) => image_after_pt_entries(pt, m, disk),
    }
}

/// Memory after writing the segment-table entries `st` into `mem`, in order;
/// `None` if an entry's segment lies beyond memory.
pub open spec fn image_after_st_entries(st: Seq<(u32, i32, i32)>, mem: Seq<i32>) -> Option<
    Seq<i32>,
>
    decreases st.len(),
{
    if st.len() == 0 {
        Some(mem)
    } else {
        match image_after_st_entries(st.drop_last(), mem) {
            None => None,
            Some(m) => {
                let (s, size, location) = st.last();
                if segment_pt_addr(s as int) >= PM_SIZE {
                    None
                } else {
                    Some(
                        m.update(segment_size_addr(s as int), size).update(
                            segment_pt_addr(s as int),
                            location,
                        ),
                    )
                }
            },
        }
    }
}

/// Memory and disk after writing the page-table entries `pt`, in order: each
/// goes into the page table of its segment, found in memory when the
/// segment's page-table location is not negative, and in the disk block
/// `-location` when it is. `None` where an index would leave memory or the
/// disk, or a location is `i32::MIN`.
pub open spec fn image_after_pt_entries(
    pt: Seq<(u32, u32, i32)>,
    mem: Seq<i32>,
    disk: Seq<i32>,
) -> Option<(Seq<i32>, Seq<i32>)>
    decreases pt.len(),
{
    if pt.len() == 0 {
        Some((mem, disk))
    } else {
        match image_after_pt_entries(pt.drop_last(), mem, disk) {
            None => None,
            Some((m, d)) => {
                let (s, page, frame) = pt.last();
                if segment_pt_addr(s as int) >= PM_SIZE {
                    None
                } else {
                    let location = m[segment_pt_addr(s as int)];
                    if location >= 0 {
                        if page_entry_addr(location as int, page as int) >= PM_SIZE {
                            None
                        } else {
                            Some(
                                (m.update(page_entry_addr(location as int, page as int), frame), d),
                            )
                        }
                    } else if location == i32::MIN || -location >= DISK_BLOCKS || page
                        >= BLOCK_SIZE {
                        None
                    } else {
                        Some((m, d.update(disk_index(-location, page as int), frame)))
                    }
                }
            },
        }
    }
}

/// The free-frame stack after installing an image: every frame outside the
/// segment table, largest first, except those the image names as locations.
pub open spec fn free_frames_after_image(st: Seq<(u32, i32, i32)>, pt: Seq<(u32, u32, i32)>) -> Seq<
    u32,
> {
    initial_free_frames().filter(|f: u32| !named_frame(st, pt, f))
}

/// Frame `f` is named as a page-table or page location by an entry of the image.
pub open spec fn named_frame(st: Seq<(u32, i32, i32)>, pt: Seq<(u32, u32, i32)>, f: u32) -> bool {
    ||| exists|k: int| 0 <= k < st.len() && #[trigger] st[k].2 > 0 && st[k].2 as u32 == f
    ||| exists|k: int| 0 <= k < pt.len() && #[trigger] pt[k].2 > 0 && pt[k].2 as u32 == f
}

proof fn lemma_st_prefix_some(st: Seq<(u32, i32, i32)>, mem: Seq<i32>, n: int)
    requires
        0 <= n <= st.len(),
        image_after_st_entries(st, mem) is Some,
    ensures
        image_after_st_entries(st.take(n), mem) is Some,
    decreases st.len(),
{
    if n < st.len() {
        assert(st.drop_last().take(n) =~= st.take(n));
        lemma_st_prefix_some(st.drop_last(), mem, n);
    } else {
        assert(st.take(n) =~= st);
    }
}

proof fn lemma_pt_prefix_some(pt: Seq<(u32, u32, i32)>, mem: Seq<i32>, disk: Seq<i32>, n: int)
    requires
        0 <= n <= pt.len(),
        image_after_pt_entries(pt, mem, disk) is Some,
    ensures
        image_after_pt_entries(pt.take(n), mem, disk) is Some,
    decreases pt.len(),
{
    if n < pt.len() {
        assert(pt.drop_last().take(n) =~= pt.take(n));
        lemma_pt_prefix_some(pt.drop_last(), mem, disk, n);
    } else {
        assert(pt.take(n) =~= pt);
    }
}

/// The addresses that the words `ws[..k]` denote, or the message for the
/// first word that is not a `u32`.
pub open spec fn address_words(ws: Seq<Seq<char>>, k: int) -> Result<Seq<u32>, Seq<char>>
    decreases k,
{
    if k <= 0 {
        Ok(Seq::empty())
    } else {
        match address_words(ws, k - 1) {
            Err(m) => Err(m),
            Ok(vas) => match parse_u32_word(ws[k - 1]) {
                None => Err("Invalid virtual address: "@ + ws[k - 1]),
                Some(va) => Ok(vas.push(va)),
            },
        }
    }
}

/// The address list `content`: whitespace-separated `u32` numbers.
pub open spec fn parse_addresses_spec(content: Seq<char>) -> Result<Seq<u32>, Seq<char>> {
    address_words(words(content), words(content).len() as int)
}

proof fn lemma_address_words_error_persists(ws: Seq<Seq<char>>, k: int, n: int)
    requires
        0 <= k <= n,
        address_words(ws, k) is Err,
    ensures
        address_words(ws, n) == address_words(ws, k),
    decreases n - k,
{
    if k < n {
        lemma_address_words_error_persists(ws, k, n - 1);
    }
}

/// Reads the virtual addresses of an input file: its words, each a `u32`.
/// On failure the message names the first word that is not one.
pub fn parse_virtual_addresses(content: &str) -> (r: Result<Vec<u32>, String>)
    ensures
        match r {
            Ok(vas) => parse_addresses_spec(content@) == Ok::<Seq<u32>, Seq<char>>(vas@),
            Err(m) => parse_addresses_spec(content@) == Err::<Seq<u32>, Seq<char>>(m@),
        },
{
    let chars = chars_of(content);
    let spans = word_spans_of(&chars);
    let ghost ws = words(content@);
    let mut vas: Vec<u32> = Vec::new();
    let mut k: usize = 0;
    while k < spans.len()
        invariant
            k <= spans@.len(),
            spans@.len() == ws.len(),
            chars@ == content@,
            ws == words(content@),
            forall|j: int|
                0 <= j < spans@.len() ==> (#[trigger] spans@[j]).0 <= spans@[j].1 <= chars@.len(),
            forall|j: int|
                0 <= j < spans@.len() ==> #[trigger] ws[j] == chars@.subrange(
                    spans@[j].0 as int,
                    spans@[j].1 as int,
                ),
            address_words(ws, k as int) == Ok::<Seq<u32>, Seq<char>>(vas@),
        decreases spans@.len() - k,
    {
        let (a, b) = spans[k];
        assert(ws[k as int] == chars@.subrange(a as int, b as int));
        match parse_u32_at(&chars, a, b) {
            None => {
                let m = message_with_word("Invalid virtual address: ", content, a, b);
                proof {
                    lemma_address_words_error_persists(ws, k as int + 1, ws.len() as int);
                }
                return Err(m);
            },
            Some(va) => vas.push(va),
        }
        k = k + 1;
    }
    Ok(vas)
}

/// The decimal numeral of `x`, with a leading `-` when negative, as `{}`
/// formats a signed integer.
pub open spec fn signed_decimal(x: int) -> Seq<char> {
    if x < 0 {
        "-"@ + decimal((-x) as nat)
    } else {
        decimal(x as nat)
    }
}

/// The numerals of `rs`, separated by single spaces.
pub open spec fn joined_numerals(rs: Seq<i32>) -> Seq<char>
    decreases rs.len(),
{
    if rs.len() == 0 {
        Seq::empty()
    } else if rs.len() == 1 {
        signed_decimal(rs[0] as int)
    } else {
        joined_numerals(rs.drop_last()) + " "@ + signed_decimal(rs.last() as int)
    }
}

/// The text of an output file: the numbers `results`, separated by single spaces.
pub fn format_results(results: &[i32]) -> (text: String)
    ensures
        text@ == joined_numerals(results@),
{
    let mut text = String::new();
    let mut i: usize = 0;
    assert(results@.take(0) =~= Seq::<i32>::empty());
    while i < results.len()
        invariant
            i <= results@.len(),
            text@ == joined_numerals(results@.take(i as int)),
        decreases results@.len() - i,
    {
        let ghost before = text@;
        let ghost next = results@.take(i as int + 1);
        assert(next.drop_last() =~= results@.take(i as int));
        assert(next.last() == results@[i as int]);
        if i > 0 {
            text.append(" ");
        }
        let x = results[i];
        if x < 0 {
            text.append("-");
            append_decimal(&mut text, (0 - (x as i64)) as u64);
        } else {
            append_decimal(&mut text, x as u64);
        }
        assert(text@ =~= joined_numerals(next)) by {
            if i == 0 {
                assert(next.len() == 1);
            }
        }
        i = i + 1;
    }
    assert(results@.take(results@.len() as int) =~= results@);
    text
}

/// The numeral of an `i32` reads back as that number.
pub proof fn lemma_signed_decimal_reads_back(x: i32)
    ensures
        parse_i32_word(signed_decimal(x as int)) == Some(x),
        is_plain_word(signed_decimal(x as int)),
{
    reveal_strlit("-");
    if x < 0 {
        let d = decimal((-x) as nat);
        lemma_decimal_digits((-x) as nat);
        let t = signed_decimal(x as int);
        assert(t == seq!['-'] + d);
        assert(t[0] == '-');
        assert(t.drop_first() =~= d);
        assert(is_digit(d[0]));
        assert forall|i: int| 0 <= i < t.len() implies !is_space(#[trigger] t[i]) by {
            if i > 0 {
                assert(t[i] == d[i - 1]);
                assert(is_digit(d[i - 1]));
            }
        }
    } else {
        let d = decimal(x as nat);
        lemma_decimal_digits(x as nat);
        assert(is_digit(d[0]));
        assert(unsigned_digits(d) == d);
        assert forall|i: int| 0 <= i < d.len() implies !is_space(#[trigger] d[i]) by {
            assert(is_digit(d[i]));
        }
    }
}

/// The words of segment-table entries written out: each entry as its
/// segment, size and location, in decimal.
pub open spec fn st_entry_words(st: Seq<(u32, i32, i32)>) -> Seq<Seq<char>> {
    Seq::new(
        3 * st.len(),
        |i: int|
            if i % 3 == 0 {
                decimal(st[i / 3].0 as nat)
            } else if i % 3 == 1 {
                signed_decimal(st[i / 3].1 as int)
            } else {
                signed_decimal(st[i / 3].2 as int)
            },
    )
}

/// The words of page-table entries written out: each entry as its segment,
/// page and location, in decimal.
pub open spec fn pt_entry_words(pt: Seq<(u32, u32, i32)>) -> Seq<Seq<char>> {
    Seq::new(
        3 * pt.len(),
        |i: int|
            if i % 3 == 0 {
                decimal(pt[i / 3].0 as nat)
            } else if i % 3 == 1 {
                decimal(pt[i / 3].1 as nat)
            } else {
                signed_decimal(pt[i / 3].2 as int)
            },
    )
}

/// An initialisation text written from entries: the segment-table entries
/// on the first line and the page-table entries on the second, each entry as
/// three decimal numbers, all separated by single spaces.
pub open spec fn image_text(st: Seq<(u32, i32, i32)>, pt: Seq<(u32, u32, i32)>) -> Seq<char> {
    spaced(st_entry_words(st)) + seq!['\n'] + spaced(pt_entry_words(pt))
}

proof fn lemma_st_words_plain(st: Seq<(u32, i32, i32)>)
    ensures
        forall|k: int|
            0 <= k < st_entry_words(st).len() ==> is_plain_word(#[trigger] st_entry_words(st)[k]),
{
    assert forall|k: int| 0 <= k < st_entry_words(st).len() implies is_plain_word(
        #[trigger] st_entry_words(st)[k],
    ) by {
        let e = st[k / 3];
        lemma_decimal_reads_back(e.0);
        lemma_signed_decimal_reads_back(e.1);
        lemma_signed_decimal_reads_back(e.2);
    }
}

proof fn lemma_pt_words_plain(pt: Seq<(u32, u32, i32)>)
    ensures
        forall|k: int|
            0 <= k < pt_entry_words(pt).len() ==> is_plain_word(#[trigger] pt_entry_words(pt)[k]),
{
    assert forall|k: int| 0 <= k < pt_entry_words(pt).len() implies is_plain_word(
        #[trigger] pt_entry_words(pt)[k],
    ) by {
        let e = pt[k / 3];
        lemma_decimal_reads_back(e.0);
        lemma_decimal_reads_back(e.1);
        lemma_signed_decimal_reads_back(e.2);
    }
}

proof fn lemma_st_triples_read_back(st: Seq<(u32, i32, i32)>, k: int)
    requires
        0 <= k <= st.len(),
        forall|j: int| 0 <= j < st.len() ==> (#[trigger] st[j]).0 < MAX_SEGMENTS,
    ensures
        st_triples(st_entry_words(st), k) == Ok::<Seq<(u32, i32, i32)>, Seq<char>>(st.take(k)),
    decreases k,
{
    if k > 0 {
        lemma_st_triples_read_back(st, k - 1);
        let ws = st_entry_words(st);
        let e = st[k - 1];
        assert((3 * k - 3) / 3 == k - 1 && (3 * k - 3) % 3 == 0);
        assert((3 * k - 2) / 3 == k - 1 && (3 * k - 2) % 3 == 1);
        assert((3 * k - 1) / 3 == k - 1 && (3 * k - 1) % 3 == 2);
        lemma_decimal_reads_back(e.0);
        lemma_signed_decimal_reads_back(e.1);
        lemma_signed_decimal_reads_back(e.2);
        assert(st_entry(ws[3 * k - 3], ws[3 * k - 2], ws[3 * k - 1]) == Ok::<
            (u32, i32, i32),
            Seq<char>,
        >(e));
        assert(st.take(k - 1).push(e) =~= st.take(k));
    } else {
        assert(st.take(0) =~= Seq::<(u32, i32, i32)>::empty());
    }
}

proof fn lemma_pt_triples_read_back(pt: Seq<(u32, u32, i32)>, k: int)
    requires
        0 <= k <= pt.len(),
        forall|j: int|
            0 <= j < pt.len() ==> (#[trigger] pt[j]).0 < MAX_SEGMENTS && pt[j].1 < PT_SIZE,
    ensures
        pt_triples(pt_entry_words(pt), k) == Ok::<Seq<(u32, u32, i32)>, Seq<char>>(pt.take(k)),
    decreases k,
{
    if k > 0 {
        lemma_pt_triples_read_back(pt, k - 1);
        let ws = pt_entry_words(pt);
        let e = pt[k - 1];
        assert((3 * k - 3) / 3 == k - 1 && (3 * k - 3) % 3 == 0);
        assert((3 * k - 2) / 3 == k - 1 && (3 * k - 2) % 3 == 1);
        assert((3 * k - 1) / 3 == k - 1 && (3 * k - 1) % 3 == 2);
        lemma_decimal_reads_back(e.0);
        lemma_decimal_reads_back(e.1);
        lemma_signed_decimal_reads_back(e.2);
        assert(pt_entry(ws[3 * k - 3], ws[3 * k - 2], ws[3 * k - 1]) == Ok::<
            (u32, u32, i32),
            Seq<char>,
        >(e));
        assert(pt.take(k - 1).push(e) =~= pt.take(k));
    } else {
        assert(pt.take(0) =~= Seq::<(u32, u32, i32)>::empty());
    }
}

/// A segment-table line written from entries parses back to them.
proof fn lemma_st_line_parses_back(st: Seq<(u32, i32, i32)>)
    requires
        forall|j: int| 0 <= j < st.len() ==> (#[trigger] st[j]).0 < MAX_SEGMENTS,
    ensures
        parse_st_spec(spaced(st_entry_words(st))) == Ok::<Seq<(u32, i32, i32)>, Seq<char>>(st),
{
    lemma_st_words_plain(st);
    lemma_words_of_spaced(st_entry_words(st));
    lemma_st_triples_read_back(st, st.len() as int);
    assert(st.take(st.len() as int) =~= st);
    if st.len() == 0 {
        assert(st =~= Seq::<(u32, i32, i32)>::empty());
    }
}

/// A page-table line written from entries parses back to them.
proof fn lemma_pt_line_parses_back(pt: Seq<(u32, u32, i32)>)
    requires
        forall|j: int|
            0 <= j < pt.len() ==> (#[trigger] pt[j]).0 < MAX_SEGMENTS && pt[j].1 < PT_SIZE,
    ensures
        parse_pt_spec(spaced(pt_entry_words(pt))) == Ok::<Seq<(u32, u32, i32)>, Seq<char>>(pt),
{
    lemma_pt_words_plain(pt);
    lemma_words_of_spaced(pt_entry_words(pt));
    lemma_pt_triples_read_back(pt, pt.len() as int);
    assert(pt.take(pt.len() as int) =~= pt);
    if pt.len() == 0 {
        assert(pt =~= Seq::<(u32, u32, i32)>::empty());
    }
}

/// Entries written out as an initialisation text parse back unchanged,
/// provided each segment lies in the segment table and each page in a page
/// table (the entries that parsing accepts).
pub proof fn lemma_image_text_parses_back(st: Seq<(u32, i32, i32)>, pt: Seq<(u32, u32, i32)>)
    requires
        forall|j: int| 0 <= j < st.len() ==> (#[trigger] st[j]).0 < MAX_SEGMENTS,
        forall|j: int|
            0 <= j < pt.len() ==> (#[trigger] pt[j]).0 < MAX_SEGMENTS && pt[j].1 < PT_SIZE,
    ensures
        parse_spec(image_text(st, pt)) == Ok::<
            (Seq<(u32, i32, i32)>, Seq<(u32, u32, i32)>),
            Seq<char>,
        >((st, pt)),
{
    let sw = st_entry_words(st);
    let pw = pt_entry_words(pt);
    let l0 = spaced(sw);
    let l1 = spaced(pw);
    let c = image_text(st, pt);
    lemma_st_line_parses_back(st);
    lemma_pt_line_parses_back(pt);
    let n0 = l0.len() as int;
    assert(c[n0] == '\n');
    assert forall|j: int| 0 <= j < n0 implies c[j] != '\n' by {
        lemma_st_words_plain(st);
        lemma_spaced_no_line_break(sw);
        assert(c[j] == l0[j]);
    }
    lemma_line_end_at(c, 0, n0);
    assert(c.subrange(0, n0) =~= l0);
    if pt.len() == 0 {
        assert(pt =~= Seq::<(u32, u32, i32)>::empty());
        assert(l1.len() == 0);
    } else {
        lemma_pt_words_plain(pt);
        assert(is_plain_word(pw[0]));
        lemma_spaced_len(pw);
        assert forall|j: int| n0 + 1 <= j < c.len() implies c[j] != '\n' by {
            lemma_spaced_no_line_break(pw);
            assert(c[j] == l1[j - n0 - 1]);
        }
        lemma_line_end_at(c, n0 + 1, c.len() as int);
        assert(c.subrange(n0 + 1, c.len() as int) =~= l1);
    }
}

} // verus!
