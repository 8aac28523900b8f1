use vstd::prelude::*;

use crate::constants::{BLOCK_SIZE, DISK_BLOCKS, PM_SIZE};
use crate::io::{
    format_results, free_frames_after_image, installed_image, joined_numerals,
    parse_addresses_spec, parse_spec, parse_virtual_addresses, InitData,
};
use crate::memory::{zero_words, Disk, FreeFrameList, PhysicalMemory};
use crate::translation::{
    decompose, demand_batch, output_of, translation, try_translate_batch,
    try_translate_batch_with_demand_paging,
};

verus! {

/// Some entry of the image names a disk block as its location.
pub open spec fn image_uses_disk(st: Seq<(u32, i32, i32)>, pt: Seq<(u32, u32, i32)>) -> bool {
    ||| exists|k: int| 0 <= k < st.len() && #[trigger] st[k].2 < 0
    ||| exists|k: int| 0 <= k < pt.len() && #[trigger] pt[k].2 < 0
}

/// Whether translation must page on demand: whether some entry of the image
/// names a disk block.
pub fn needs_demand_paging(init_data: &InitData) -> (b: bool)
    ensures
        b == image_uses_disk(init_data.st_entries@, init_data.pt_entries@),
{
    let mut i: usize = 0;
    while i < init_data.st_entries.len()
        invariant
            i <= init_data.st_entries@.len(),
            forall|k: int| 0 <= k < i ==> (#[trigger] init_data.st_entries@[k]).2 >= 0,
        decreases init_data.st_entries@.len() - i,
    {
        let (_, _, f) = init_data.st_entries[i];
        if f < 0 {
            return true;
        }
        i = i + 1;
    }
    let mut j: usize = 0;
    while j < init_data.pt_entries.len()
        invariant
            j <= init_data.pt_entries@.len(),
            forall|k: int|
                0 <= k < init_data.st_entries@.len() ==> (#[trigger] init_data.st_entries@[k]).2
                    >= 0,
            forall|k: int| 0 <= k < j ==> (#[trigger] init_data.pt_entries@[k]).2 >= 0,
        decreases init_data.pt_entries@.len() - j,
    {
        let (_, _, f) = init_data.pt_entries[j];
        if f < 0 {
            return true;
        }
        j = j + 1;
    }
    false
}

/// Installs `init_data` into zeroed memory and a zeroed disk, as a run
/// starts: the memory, the disk and the free-frame list, or `None` where
/// installing the image fails.
pub fn install(init_data: &InitData) -> (r: Option<(PhysicalMemory, Disk, FreeFrameList)>)
    ensures
        match r {
            Some((pm, disk, ffl)) => {
                &&& pm.wf() && disk.wf() && ffl.wf()
                &&& installed_image(
                    init_data.st_entries@,
                    init_data.pt_entries@,
                    zero_words(PM_SIZE as nat),
                    zero_words((DISK_BLOCKS * BLOCK_SIZE) as nat),
                ) == Some((pm@, disk@))
                &&& ffl@ == free_frames_after_image(init_data.st_entries@, init_data.pt_entries@)
            },
            None => installed_image(
                init_data.st_entries@,
                init_data.pt_entries@,
                zero_words(PM_SIZE as nat),
                zero_words((DISK_BLOCKS * BLOCK_SIZE) as nat),
            ) is None,
        },
{
    let mut pm = PhysicalMemory::new();
    let mut disk = Disk::new();
    match init_data.try_apply(&mut pm, &mut disk) {
        Some(ffl) => Some((pm, disk, ffl)),
        None => None,
    }
}

/// The output numbers of translating `vas` against an installed image: with
/// demand paging when `on_demand`, plainly otherwise; `None` where a
/// translation is undefined.
pub open spec fn run_outputs(
    on_demand: bool,
    vas: Seq<u32>,
    mem: Seq<i32>,
    disk: Seq<i32>,
    free: Seq<u32>,
) -> Option<Seq<i32>> {
    if on_demand {
        match demand_batch(vas, mem, disk, free) {
            None => None,
            Some((outs, _, _)) => Some(outs),
        }
    } else if forall|i: int|
        0 <= i < vas.len() ==> (#[trigger] translation(decompose(vas[i]), mem)) is Some {
        Some(Seq::new(vas.len(), |i: int| output_of(translation(decompose(vas[i]), mem)->0)))
    } else {
        None
    }
}

/// Translates `vas` against the installed image of `init_data`: with demand
/// paging when the image names a disk block, plainly otherwise. Returns the
/// output numbers, or `None` where a translation is undefined. Demand paging
/// leaves memory and the free frames as the run of `demand_batch` does;
/// plain translation changes neither.
pub fn translate_addresses(
    init_data: &InitData,
    pm: &mut PhysicalMemory,
    disk: &Disk,
    ffl: &mut FreeFrameList,
    vas: &[u32],
) -> (out: Option<Vec<i32>>)
    requires
        old(pm).wf(),
        disk.wf(),
        old(ffl).wf(),
    ensures
        final(pm).wf(),
        final(ffl).wf(),
        !image_uses_disk(init_data.st_entries@, init_data.pt_entries@) ==> final(pm)@ == old(pm)@
            && final(ffl)@ == old(ffl)@,
        match out {
            Some(o) => {
                &&& run_outputs(
                    image_uses_disk(init_data.st_entries@, init_data.pt_entries@),
                    vas@,
                    old(pm)@,
                    disk@,
                    old(ffl)@,
                ) == Some(o@)
                &&& image_uses_disk(init_data.st_entries@, init_data.pt_entries@) ==> demand_batch(
                    vas@,
                    old(pm)@,
                    disk@,
                    old(ffl)@,
                ) == Some((o@, final(pm)@, final(ffl)@))
            },
            None => run_outputs(
                image_uses_disk(init_data.st_entries@, init_data.pt_entries@),
                vas@,
                old(pm)@,
                disk@,
                old(ffl)@,
            ) is None,
        },
{
    if needs_demand_paging(init_data) {
        try_translate_batch_with_demand_paging(vas, pm, disk, ffl)
    } else {
        let r = try_translate_batch(vas, pm);
        match r {
            Some(o) => {
                assert(o@ =~= Seq::new(
                    vas@.len(),
                    |i: int| output_of(translation(decompose(vas@[i]), pm@)->0),
                ));
                Some(o)
            },
            None => None,
        }
    }
}

/// The text as a specification sees it: characters, or an error message.
pub open spec fn text_view(t: Result<String, String>) -> Result<Seq<char>, Seq<char>> {
    match t {
        Ok(s) => Ok(s@),
        Err(m) => Err(m@),
    }
}

/// A whole run on the initialisation text `init` and the address input
/// `input` (its text, or the message of a failure to read it): the output
/// text, or the message of the first error, in the order a run meets them
/// (the initialisation text, installing, the address input, translating).
/// `None` where installing or translating is undefined.
pub open spec fn run_result(init: Seq<char>, input: Result<Seq<char>, Seq<char>>) -> Option<
    Result<Seq<char>, Seq<char>>,
> {
    match parse_spec(init) {
        Err(m) => Some(Err(m)),
        Ok((st, pt)) => match installed_image(
            st,
            pt,
            zero_words(PM_SIZE as nat),
            zero_words((DISK_BLOCKS * BLOCK_SIZE) as nat),
        ) {
            None => None,
            Some((mem, disk)) => match input {
                Err(m) => Some(Err(m)),
                Ok(text) => match parse_addresses_spec(text) {
                    Err(m) => Some(Err(m)),
                    Ok(vas) => match run_outputs(
                        image_uses_disk(st, pt),
                        vas,
                        mem,
                        disk,
                        free_frames_after_image(st, pt),
                    ) {
                        None => None,
                        Some(outs) => Some(Ok(joined_numerals(outs))),
                    },
                },
            },
        },
    }
}

/// Runs the simulation on the initialisation text and the address input:
/// the output text, or the first error's message; `None` where installing or
/// translating is undefined.
pub fn run_texts(init_text: &str, input: Result<String, String>) -> (r: Option<
    Result<String, String>,
>)
    ensures
        match r {
            Some(res) => run_result(init_text@, text_view(input)) == Some(text_view(res)),
            None => run_result(init_text@, text_view(input)) is None,
        },
{
    let init_data = match InitData::parse(init_text) {
        Ok(d) => d,
        Err(m) => return Some(Err(m)),
    };
    let (mut pm, disk, mut ffl) = match install(&init_data) {
        Some(installed) => installed,
        None => return None,
    };
    let text = match input {
        Ok(t) => t,
        Err(m) => return Some(Err(m)),
    };
    let vas = match parse_virtual_addresses(text.as_str()) {
        Ok(v) => v,
        Err(m) => return Some(Err(m)),
    };
    match translate_addresses(&init_data, &mut pm, &disk, &mut ffl, vas.as_slice()) {
        Some(outs) => Some(Ok(format_results(outs.as_slice()))),
        None => None,
    }
}

} // verus!
