//! What holds of the disk on the primary ATA bus.
use crate::fs::ata::{
    after_word, disk_after, phase_after, phase_after_command, received, status_verdict, AtaAction,
    AtaJob, AtaJobKind, AtaPhase, AtaPioBlockDevice,
};
use crate::fs::dev::DeviceState;
use crate::fs::types::FsError;
use vstd::prelude::*;

verus! {

/// The four parts of the number of a sector make up that number.
proof fn lemma_parts(lba: u64)
    by (bit_vector)
    requires
        lba < 0x1000_0000,
    ensures
        ((lba & 0xFF) as u8) as u64 + 256u64 * (((lba >> 8) & 0xFF) as u8) as u64 + 65536u64 * (((lba
            >> 16) & 0xFF) as u8) as u64 + 0x100_0000u64 * ((0xE0u8 | (((lba >> 24) & 0x0F) as u8))
            & 0x0F) as u64 == lba,
        (0xE0u8 | (((lba >> 24) & 0x0F) as u8)) & 0xF0 == 0xE0,
{
}

/// A command to move a sector names that sector: what it sends to the ports for the low, middle
/// and high part and to the low four bits of the drive port make up its number. It asks for one
/// sector of the first drive, counted from the start of the disk, and its code comes last.
pub proof fn law_command_names_its_sector(job: AtaJob, buf: Seq<u8>, a: AtaAction)
    requires
        job.wf(),
        job.phase == AtaPhase::Command,
        job.kind == AtaJobKind::Read || job.kind == AtaJobKind::Write,
        job.lba + job.sector < 0x1000_0000,
        job.is_next(buf, a),
    ensures
        a is Send,
        a->count == 6,
        ({
            let w = a->writes@;
            &&& w[0].port == 0x1F6 && w[1].port == 0x1F2 && w[2].port == 0x1F3
            &&& w[3].port == 0x1F4 && w[4].port == 0x1F5 && w[5].port == 0x1F7
            &&& w[2].value + 256 * w[3].value + 65536 * w[4].value + 0x100_0000 * (w[0].value
                & 0x0F) == job.lba + job.sector
            &&& w[0].value & 0xF0 == 0xE0
            &&& w[1].value == 1
            &&& w[5].value == (if job.kind == AtaJobKind::Read {
                0x20u8
            } else {
                0x30u8
            })
        }),
{
    let w = a->writes@;
    let c = job.command();
    let lba = (job.lba + job.sector) as u64;
    lemma_parts(lba);
    assert(w.take(6)[0] == w[0] && w.take(6)[1] == w[1] && w.take(6)[2] == w[2]);
    assert(w.take(6)[3] == w[3] && w.take(6)[4] == w[4] && w.take(6)[5] == w[5]);
    assert(w.take(6) == c);
}

/// A command to have the disk write what it holds back, and a question for what it is, name no
/// sector: each goes to the first drive and ends with its code.
pub proof fn law_other_commands(job: AtaJob, buf: Seq<u8>, a: AtaAction)
    requires
        job.wf(),
        job.phase == AtaPhase::Command,
        job.kind == AtaJobKind::Flush || job.kind == AtaJobKind::Probe,
        job.is_next(buf, a),
    ensures
        a is Send,
        ({
            let w = a->writes@;
            &&& job.kind == AtaJobKind::Flush ==> a->count == 2 && w[0].port == 0x1F6 && w[0].value
                == 0xE0 && w[1].port == 0x1F7 && w[1].value == 0xE7
            &&& job.kind == AtaJobKind::Probe ==> {
                &&& a->count == 6
                &&& w[0].port == 0x1F6 && w[0].value == 0xA0
                &&& w[1].port == 0x1F2 && w[2].port == 0x1F3 && w[3].port == 0x1F4
                &&& w[4].port == 0x1F5
                &&& w[1].value == 0 && w[2].value == 0 && w[3].value == 0 && w[4].value == 0
                &&& w[5].port == 0x1F7 && w[5].value == 0xEC
            }
        }),
{
    let w = a->writes@;
    let c = job.command();
    assert(w.take(a->count as int) == c);
    assert forall|k: int| 0 <= k < c.len() implies w[k] == #[trigger] c[k] by {
        assert(w.take(a->count as int)[k] == w[k]);
    }
    if job.kind == AtaJobKind::Flush {
        assert(w[0] == c[0] && w[1] == c[1]);
    } else {
        assert(w[0] == c[0] && w[1] == c[1] && w[2] == c[2]);
        assert(w[3] == c[3] && w[4] == c[4] && w[5] == c[5]);
    }
}

/// A word that is read goes to its place in the buffer, low byte first: the word `n` of the sector
/// `s` of the block to the bytes `512 * s + 2 * n` and the next. No other byte changes.
pub proof fn law_word_goes_to_its_place(buf: Seq<u8>, job: AtaJob, word: u16, k: int)
    requires
        job.wf(),
        job.phase == AtaPhase::Data,
        buf.len() == 4096,
        0 <= k < 4096,
    ensures
        ({
            let at = 512 * job.sector + 2 * job.word;
            let r = received(buf, job, word);
            &&& r.len() == 4096
            &&& job.kind == AtaJobKind::Read ==> r[at] + 256 * r[at + 1] == word
            &&& job.kind != AtaJobKind::Read || (k != at && k != at + 1) ==> r[k] == buf[k]
        }),
{
}

/// What is written is what is read back: a word that goes out from its place in a block and comes
/// back for that place puts the same two bytes there.
pub proof fn law_written_word_is_read_back(
    source: Seq<u8>,
    out: AtaJob,
    a: AtaAction,
    back: AtaJob,
    target: Seq<u8>,
)
    requires
        out.wf(),
        back.wf(),
        out.phase == AtaPhase::Data,
        back.phase == AtaPhase::Data,
        out.kind == AtaJobKind::Write,
        back.kind == AtaJobKind::Read,
        out.sector == back.sector,
        out.word == back.word,
        source.len() == 4096,
        target.len() == 4096,
        out.is_next(source, a),
    ensures
        a is WriteWord,
        ({
            let at = 512 * out.sector + 2 * out.word;
            let r = received(target, back, a->word);
            r[at] == source[at] && r[at + 1] == source[at + 1]
        }),
{
}

/// The words of a sector are moved in order, and the sectors of a block one after another, each
/// with a command of its own; the job is finished after the last word of the eighth.
pub proof fn law_words_come_in_order(job: AtaJob, word: u16)
    requires
        job.wf(),
        job.phase == AtaPhase::Data,
        job.kind == AtaJobKind::Read || job.kind == AtaJobKind::Write,
    ensures
        ({
            let j = after_word(job, word);
            &&& j.kind == job.kind && j.lba == job.lba
            &&& job.word < 255 ==> j.phase == AtaPhase::Data && j.sector == job.sector && j.word
                == job.word + 1
            &&& job.word == 255 && job.sector < 7 ==> j.phase == AtaPhase::Ready && j.sector
                == job.sector + 1 && j.word == 0 && j.polls == 0
            &&& job.word == 255 && job.sector == 7 ==> j.phase == AtaPhase::Finished
        }),
{
}

/// A probe learns the number of sectors from the words 60 and 61 of what the disk says of itself,
/// and from no other, and takes the disk into use with an eighth as many blocks.
pub proof fn law_probe_learns_the_size(
    disk: AtaPioBlockDevice,
    job: AtaJob,
    low: u16,
    high: u16,
    later: AtaJob,
    word: u16,
)
    requires
        job.wf(),
        job.kind == AtaJobKind::Probe,
        job.phase == AtaPhase::Data,
        job.word == 60,
        later.wf(),
        later.kind == AtaJobKind::Probe,
        later.phase == AtaPhase::Data,
        later.word > 61,
    ensures
        ({
            let j = after_word(after_word(job, low), high);
            let l = after_word(later, word);
            &&& j.sectors == low + 65536 * high
            &&& j.word == 62
            &&& j.phase == AtaPhase::Data
            &&& l.sectors == later.sectors
            &&& l.phase == AtaPhase::Finished <==> later.word == 255
            &&& disk_after(disk, l) == (if later.word == 255 {
                AtaPioBlockDevice {
                    device_id: disk.device_id,
                    state: DeviceState::Ready,
                    total_blocks: (later.sectors / 8) as u64,
                }
            } else {
                disk
            })
        }),
{
}

/// Data is moved only when the disk is not busy and asks for it; a command is sent only when the
/// disk is not busy and reports no error.
pub proof fn law_disk_is_obeyed(phase: AtaPhase, polls: u32, status: u8)
    requires
        polls < 100_000,
    ensures
        ({
            let v = status_verdict(phase, polls, status);
            let busy = status & 0x80 != 0;
            let wants = status & 0x08 != 0;
            let fault = status & 0x01 != 0 || status & 0x20 != 0;
            &&& phase == AtaPhase::Drq ==> {
                &&& (v == Some(Ok::<(), FsError>(()))) == (!busy && wants)
                &&& (v == Some(Err::<(), FsError>(FsError::DeviceError))) == (fault && (busy
                    || !wants))
                &&& (v is None) == (!fault && (busy || !wants) && polls < 99_999)
                &&& (v == Some(Err::<(), FsError>(FsError::DeviceTimeout))) == (!fault && (busy
                    || !wants) && polls == 99_999)
            }
            &&& phase == AtaPhase::Ready || phase == AtaPhase::Settle ==> {
                &&& (v == Some(Ok::<(), FsError>(()))) == (!busy && !fault)
                &&& (v == Some(Err::<(), FsError>(FsError::DeviceError))) == (!busy && fault)
                &&& (v is None) == (busy && polls < 99_999)
                &&& (v == Some(Err::<(), FsError>(FsError::DeviceTimeout))) == (busy && polls
                    == 99_999)
            }
            &&& phase == AtaPhase::Present ==> {
                &&& (v == Some(Ok::<(), FsError>(()))) == (status != 0 && status != 0xFF)
                &&& (v == Some(Err::<(), FsError>(FsError::NotFound))) == (status == 0 || status
                    == 0xFF)
            }
        }),
{
}

/// A command follows only on a disk found ready, data only on a disk that asks for it, and a job
/// ends without data only if it was to have the disk write what it holds back.
pub proof fn law_order_of_a_job(job: AtaJob)
    requires
        job.phase == AtaPhase::Ready || job.phase == AtaPhase::Present || job.phase
            == AtaPhase::Settle || job.phase == AtaPhase::Drq,
    ensures
        phase_after(job) == AtaPhase::Command <==> job.phase == AtaPhase::Ready,
        phase_after(job) == AtaPhase::Data <==> job.phase == AtaPhase::Drq,
        phase_after(job) == AtaPhase::Settle <==> job.phase == AtaPhase::Present,
        phase_after(job) == AtaPhase::Finished <==> job.phase == AtaPhase::Settle && job.kind
            == AtaJobKind::Flush,
        phase_after(job) == AtaPhase::Drq <==> job.phase == AtaPhase::Settle && job.kind
            != AtaJobKind::Flush,
        phase_after_command(job.kind) == AtaPhase::Drq <==> job.kind == AtaJobKind::Read || job.kind
            == AtaJobKind::Write,
        phase_after_command(job.kind) == AtaPhase::Present <==> job.kind == AtaJobKind::Probe,
        phase_after_command(job.kind) == AtaPhase::Settle <==> job.kind == AtaJobKind::Flush,
{
}

} // verus!
