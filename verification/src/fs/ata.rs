//! A disk on the primary ATA bus: what to ask of its ports, and what to make of the answers.
//!
//! A request is a job. As long as it goes on, `action` says what to do next; what comes back is
//! handed to `sent`, `status_read` or `word_moved`.
use crate::fs::dev::DeviceState;
use crate::fs::types::{FsError, BLOCK_SIZE, SECTORS_PER_BLOCK};
use crate::hal::cpu::PortWrite;
use vstd::prelude::*;

verus! {

/// How often a status is read before the disk is given up.
pub const MAX_ATA_POLL_ITERATIONS: u32 = 100_000;

pub const MAX_BLOCK_DEVICES: usize = 2;

pub const ATA_PORT_DATA: u16 = 0x1F0;

pub const ATA_PORT_SECT_COUNT: u16 = 0x1F2;

pub const ATA_PORT_LBA_LOW: u16 = 0x1F3;

pub const ATA_PORT_LBA_MID: u16 = 0x1F4;

pub const ATA_PORT_LBA_HIGH: u16 = 0x1F5;

pub const ATA_PORT_DRIVE_HEAD: u16 = 0x1F6;

pub const ATA_PORT_STATUS_CMD: u16 = 0x1F7;

pub const ATA_CMD_READ_SECTORS: u8 = 0x20;

pub const ATA_CMD_WRITE_SECTORS: u8 = 0x30;

pub const ATA_CMD_IDENTIFY: u8 = 0xEC;

pub const ATA_CMD_FLUSH_CACHE: u8 = 0xE7;

pub const ATA_STATUS_ERR: u8 = 0x01;

pub const ATA_STATUS_DRQ: u8 = 0x08;

pub const ATA_STATUS_DF: u8 = 0x20;

pub const ATA_STATUS_BSY: u8 = 0x80;

/// Words in a sector.
pub const SECTOR_WORDS: usize = 256;

/// The disk.
#[derive(Debug, Clone, Copy, PartialEq, Eq, Structural)]
pub struct AtaPioBlockDevice {
    pub device_id: u8,
    pub state: DeviceState,
    pub total_blocks: u64,
}

/// What a job is for.
#[derive(Debug, Clone, Copy, PartialEq, Eq, Structural)]
pub enum AtaJobKind {
    Read,
    Write,
    Flush,
    Probe,
}

/// How far a job is.
#[derive(Debug, Clone, Copy, PartialEq, Eq, Structural)]
pub enum AtaPhase {
    /// Waits until the disk is not busy, before a command.
    Ready,
    /// Sends a command.
    Command,
    /// Looks whether there is a disk at all.
    Present,
    /// Waits until the disk is not busy, after a command.
    Settle,
    /// Waits until the disk wants data moved.
    Drq,
    /// Moves the words of a sector.
    Data,
    Finished,
}

/// A request to the disk.
#[derive(Debug, Clone, Copy, PartialEq, Eq, Structural)]
pub struct AtaJob {
    pub kind: AtaJobKind,
    pub phase: AtaPhase,
    /// The first sector.
    pub lba: u64,
    /// Sectors done.
    pub sector: usize,
    /// Words of the sector moved.
    pub word: usize,
    /// Statuses read in this phase.
    pub polls: u32,
    /// What a probe has learned of the number of sectors.
    pub sectors: u64,
}

/// What to do next.
#[derive(Debug, Clone, Copy)]
pub enum AtaAction {
    /// Write these bytes, of which the first `count` matter, and report `sent`.
    Send { writes: [PortWrite; 6], count: usize },
    /// Read the status port and report `status_read`.
    ReadStatus,
    /// Read the data port and report `word_moved`.
    ReadWord,
    /// Write the data port and report `word_moved`.
    WriteWord { word: u16 },
    Done,
}

impl AtaJob {
    /// The job makes sense: what it counts is in range.
    pub open spec fn wf(&self) -> bool {
        &&& self.phase != AtaPhase::Finished ==> {
            &&& self.sector < SECTORS_PER_BLOCK
            &&& self.word < SECTOR_WORDS
            &&& self.polls < MAX_ATA_POLL_ITERATIONS
        }
        &&& self.lba + SECTORS_PER_BLOCK <= u64::MAX
        &&& self.sectors <= 0xFFFF_FFFF
        &&& self.kind == AtaJobKind::Probe ==> self.sector == 0
    }

    /// How many words of the job were moved.
    pub open spec fn moved(&self) -> int {
        self.sector * SECTOR_WORDS + self.word
    }

    /// A command for a sector.
    pub open spec fn command(&self) -> Seq<PortWrite> {
        match self.kind {
            AtaJobKind::Probe => seq![
                PortWrite { port: ATA_PORT_DRIVE_HEAD, value: 0xA0, pause: true },
                PortWrite { port: ATA_PORT_SECT_COUNT, value: 0, pause: false },
                PortWrite { port: ATA_PORT_LBA_LOW, value: 0, pause: false },
                PortWrite { port: ATA_PORT_LBA_MID, value: 0, pause: false },
                PortWrite { port: ATA_PORT_LBA_HIGH, value: 0, pause: false },
                PortWrite { port: ATA_PORT_STATUS_CMD, value: ATA_CMD_IDENTIFY, pause: true },
            ],
            AtaJobKind::Flush => seq![
                PortWrite { port: ATA_PORT_DRIVE_HEAD, value: 0xE0, pause: false },
                PortWrite { port: ATA_PORT_STATUS_CMD, value: ATA_CMD_FLUSH_CACHE, pause: false },
            ],
            _ => {
                let lba = (self.lba + self.sector) as u64;
                seq![
                    PortWrite {
                        port: ATA_PORT_DRIVE_HEAD,
                        value: 0xE0 | (((lba >> 24) & 0x0F) as u8),
                        pause: false,
                    },
                    PortWrite { port: ATA_PORT_SECT_COUNT, value: 1, pause: false },
                    PortWrite {
                        port: ATA_PORT_LBA_LOW,
                        value: (lba & 0xFF) as u8,
                        pause: false,
                    },
                    PortWrite {
                        port: ATA_PORT_LBA_MID,
                        value: ((lba >> 8) & 0xFF) as u8,
                        pause: false,
                    },
                    PortWrite {
                        port: ATA_PORT_LBA_HIGH,
                        value: ((lba >> 16) & 0xFF) as u8,
                        pause: false,
                    },
                    PortWrite {
                        port: ATA_PORT_STATUS_CMD,
                        value: if self.kind == AtaJobKind::Read {
                            ATA_CMD_READ_SECTORS
                        } else {
                            ATA_CMD_WRITE_SECTORS
                        },
                        pause: false,
                    },
                ]
            },
        }
    }

    /// What to do next for the job.
    pub open spec fn is_next(&self, buf: Seq<u8>, a: AtaAction) -> bool {
        match self.phase {
            AtaPhase::Command => a is Send && a->count == self.command().len()
                && a->writes@.take(a->count as int) == self.command(),
            AtaPhase::Data => if self.kind == AtaJobKind::Write {
                a == (AtaAction::WriteWord {
                    word: (buf[2 * self.moved()] + 256 * buf[2 * self.moved() + 1]) as u16,
                })
            } else {
                a == AtaAction::ReadWord
            },
            AtaPhase::Finished => a == AtaAction::Done,
            _ => a == AtaAction::ReadStatus,
        }
    }
}

/// Whether an error bit is set in a status.
pub open spec fn has_fault(status: u8) -> bool {
    status & ATA_STATUS_ERR != 0 || status & ATA_STATUS_DF != 0
}

/// What a status says in a phase: go on, or why not; `None` to ask again.
pub open spec fn status_verdict(phase: AtaPhase, polls: u32, status: u8) -> Option<
    Result<(), FsError>,
> {
    let again = if polls + 1 >= MAX_ATA_POLL_ITERATIONS {
        Some(Err::<(), FsError>(FsError::DeviceTimeout))
    } else {
        None
    };
    if phase == AtaPhase::Present {
        if status == 0 || status == 0xFF {
            Some(Err(FsError::NotFound))
        } else {
            Some(Ok(()))
        }
    } else if phase == AtaPhase::Drq {
        if status & ATA_STATUS_BSY == 0 && status & ATA_STATUS_DRQ != 0 {
            Some(Ok(()))
        } else if has_fault(status) {
            Some(Err(FsError::DeviceError))
        } else {
            again
        }
    } else if status & ATA_STATUS_BSY == 0 {
        if has_fault(status) {
            Some(Err(FsError::DeviceError))
        } else {
            Some(Ok(()))
        }
    } else {
        again
    }
}

/// The phase that follows a status that was waited for.
pub open spec fn phase_after(job: AtaJob) -> AtaPhase {
    match job.phase {
        AtaPhase::Ready => AtaPhase::Command,
        AtaPhase::Present => AtaPhase::Settle,
        AtaPhase::Settle => if job.kind == AtaJobKind::Flush {
            AtaPhase::Finished
        } else {
            AtaPhase::Drq
        },
        _ => AtaPhase::Data,
    }
}

/// The phase that follows a command.
pub open spec fn phase_after_command(kind: AtaJobKind) -> AtaPhase {
    match kind {
        AtaJobKind::Probe => AtaPhase::Present,
        AtaJobKind::Flush => AtaPhase::Settle,
        _ => AtaPhase::Drq,
    }
}

/// The job after a word was moved.
pub open spec fn after_word(job: AtaJob, word: u16) -> AtaJob {
    let sectors = if job.kind != AtaJobKind::Probe {
        job.sectors
    } else if job.word == 60 {
        word as u64
    } else if job.word == 61 {
        (job.sectors % 0x1_0000 + 0x1_0000 * word) as u64
    } else {
        job.sectors
    };
    if job.word + 1 < SECTOR_WORDS {
        AtaJob { word: (job.word + 1) as usize, sectors, ..job }
    } else if job.kind == AtaJobKind::Probe || job.sector + 1 >= SECTORS_PER_BLOCK {
        AtaJob { phase: AtaPhase::Finished, word: 0, sectors, ..job }
    } else {
        AtaJob {
            phase: AtaPhase::Ready,
            sector: (job.sector + 1) as usize,
            word: 0,
            polls: 0,
            sectors,
            ..job
        }
    }
}

/// The disk after a word brought a job to where it is.
pub open spec fn disk_after(disk: AtaPioBlockDevice, job: AtaJob) -> AtaPioBlockDevice {
    if job.kind == AtaJobKind::Probe && job.phase == AtaPhase::Finished {
        AtaPioBlockDevice {
            state: DeviceState::Ready,
            total_blocks: (job.sectors / 8) as u64,
            ..disk
        }
    } else {
        disk
    }
}

/// The buffer after a word was moved.
pub open spec fn received(buf: Seq<u8>, job: AtaJob, word: u16) -> Seq<u8> {
    if job.kind == AtaJobKind::Read {
        buf.update(2 * job.moved(), (word % 256) as u8).update(
            2 * job.moved() + 1,
            (word / 256) as u8,
        )
    } else {
        buf
    }
}

impl AtaPioBlockDevice {
    /// A disk that was not probed yet.
    pub fn new() -> (r: Self)
        ensures
            r == (AtaPioBlockDevice {
                device_id: 1,
                state: DeviceState::Offline,
                total_blocks: 0,
            }),
    {
        AtaPioBlockDevice { device_id: 1, state: DeviceState::Offline, total_blocks: 0 }
    }

    /// Begins to look for the disk.
    pub fn probe(&mut self) -> (job: AtaJob)
        ensures
            *final(self) == (AtaPioBlockDevice { state: DeviceState::Probing, ..*old(self) }),
            job.wf(),
            job.kind == AtaJobKind::Probe,
            job.phase == AtaPhase::Command,
            job.moved() == 0,
            job.sectors == 0,
    {
        self.state = DeviceState::Probing;
        AtaJob {
            kind: AtaJobKind::Probe,
            phase: AtaPhase::Command,
            lba: 0,
            sector: 0,
            word: 0,
            polls: 0,
            sectors: 0,
        }
    }

    /// Begins to move a block.
    fn begin(&self, kind: AtaJobKind, block_idx: u64) -> (r: Result<AtaJob, FsError>)
        requires
            self.total_blocks <= 0x2000_0000,
        ensures
            self.state != DeviceState::Ready ==> r == Err::<AtaJob, FsError>(FsError::DeviceError),
            self.state == DeviceState::Ready && block_idx >= self.total_blocks ==> r == Err::<
                AtaJob,
                FsError,
            >(FsError::InvalidArgument),
            self.state == DeviceState::Ready && block_idx < self.total_blocks ==> r == Ok::<
                AtaJob,
                FsError,
            >(
                AtaJob {
                    kind,
                    phase: AtaPhase::Ready,
                    lba: (block_idx * SECTORS_PER_BLOCK) as u64,
                    sector: 0,
                    word: 0,
                    polls: 0,
                    sectors: 0,
                },
            ),
    {
        if self.state != DeviceState::Ready {
            return Err(FsError::DeviceError);
        }
        if block_idx >= self.total_blocks {
            return Err(FsError::InvalidArgument);
        }
        Ok(
            AtaJob {
                kind,
                phase: AtaPhase::Ready,
                lba: block_idx * SECTORS_PER_BLOCK as u64,
                sector: 0,
                word: 0,
                polls: 0,
                sectors: 0,
            },
        )
    }

    /// Begins to read a block.
    pub fn read_block(&self, block_idx: u64) -> (r: Result<AtaJob, FsError>)
        requires
            self.total_blocks <= 0x2000_0000,
        ensures
            self.state != DeviceState::Ready ==> r == Err::<AtaJob, FsError>(FsError::DeviceError),
            self.state == DeviceState::Ready && block_idx >= self.total_blocks ==> r == Err::<
                AtaJob,
                FsError,
            >(FsError::InvalidArgument),
            self.state == DeviceState::Ready && block_idx < self.total_blocks ==> {
                &&& r is Ok
                &&& r->Ok_0.wf()
                &&& r->Ok_0.kind == AtaJobKind::Read
                &&& r->Ok_0.phase == AtaPhase::Ready
                &&& r->Ok_0.lba == block_idx * 8
                &&& r->Ok_0.moved() == 0
                &&& r->Ok_0.polls == 0
            },
    {
        self.begin(AtaJobKind::Read, block_idx)
    }

    /// Begins to write a block.
    pub fn write_block(&self, block_idx: u64) -> (r: Result<AtaJob, FsError>)
        requires
            self.total_blocks <= 0x2000_0000,
        ensures
            self.state != DeviceState::Ready ==> r == Err::<AtaJob, FsError>(FsError::DeviceError),
            self.state == DeviceState::Ready && block_idx >= self.total_blocks ==> r == Err::<
                AtaJob,
                FsError,
            >(FsError::InvalidArgument),
            self.state == DeviceState::Ready && block_idx < self.total_blocks ==> {
                &&& r is Ok
                &&& r->Ok_0.wf()
                &&& r->Ok_0.kind == AtaJobKind::Write
                &&& r->Ok_0.phase == AtaPhase::Ready
                &&& r->Ok_0.lba == block_idx * 8
                &&& r->Ok_0.moved() == 0
                &&& r->Ok_0.polls == 0
            },
    {
        self.begin(AtaJobKind::Write, block_idx)
    }

    /// Begins to have the disk write what it holds back.
    pub fn flush(&self) -> (r: Result<AtaJob, FsError>)
        ensures
            self.state != DeviceState::Ready ==> r == Err::<AtaJob, FsError>(FsError::DeviceError),
            self.state == DeviceState::Ready ==> {
                &&& r is Ok
                &&& r->Ok_0.wf()
                &&& r->Ok_0.kind == AtaJobKind::Flush
                &&& r->Ok_0.phase == AtaPhase::Ready
                &&& r->Ok_0.polls == 0
            },
    {
        if self.state != DeviceState::Ready {
            return Err(FsError::DeviceError);
        }
        Ok(
            AtaJob {
                kind: AtaJobKind::Flush,
                phase: AtaPhase::Ready,
                lba: 0,
                sector: 0,
                word: 0,
                polls: 0,
                sectors: 0,
            },
        )
    }

    /// Says what to do next.
    pub fn action(job: &AtaJob, buf: &[u8; BLOCK_SIZE]) -> (a: AtaAction)
        requires
            job.wf(),
        ensures
            job.is_next(buf@, a),
    {
        match job.phase {
            AtaPhase::Command => {
                let (writes, count) = command_bytes(job);
                AtaAction::Send { writes, count }
            },
            AtaPhase::Data => {
                if job.kind == AtaJobKind::Write {
                    let at: usize = 2 * (job.sector * SECTOR_WORDS + job.word);
                    let word: u16 = buf[at] as u16 + 256 * buf[at + 1] as u16;
                    AtaAction::WriteWord { word }
                } else {
                    AtaAction::ReadWord
                }
            },
            AtaPhase::Finished => AtaAction::Done,
            _ => AtaAction::ReadStatus,
        }
    }

    /// The command was sent.
    pub fn sent(job: &mut AtaJob)
        requires
            old(job).wf(),
            old(job).phase == AtaPhase::Command,
        ensures
            *final(job) == (AtaJob {
                phase: phase_after_command(old(job).kind),
                polls: 0,
                ..*old(job)
            }),
            final(job).wf(),
    {
        job.phase = match job.kind {
            AtaJobKind::Probe => AtaPhase::Present,
            AtaJobKind::Flush => AtaPhase::Settle,
            _ => AtaPhase::Drq,
        };
        job.polls = 0;
    }

    /// A status was read. An error ends the job and puts the disk out of use; a disk that is not
    /// there is offline.
    pub fn status_read(&mut self, job: &mut AtaJob, status: u8) -> (r: Result<(), FsError>)
        requires
            old(job).wf(),
            old(job).phase == AtaPhase::Ready || old(job).phase == AtaPhase::Present || old(
                job,
            ).phase == AtaPhase::Settle || old(job).phase == AtaPhase::Drq,
        ensures
            match status_verdict(old(job).phase, old(job).polls, status) {
                None => {
                    &&& r is Ok
                    &&& *final(self) == *old(self)
                    &&& *final(job) == (AtaJob { polls: (old(job).polls + 1) as u32, ..*old(job) })
                },
                Some(Ok(_)) => {
                    &&& r is Ok
                    &&& *final(self) == *old(self)
                    &&& *final(job) == (AtaJob { phase: phase_after(*old(job)), polls: 0, ..*old(job) })
                },
                Some(Err(e)) => {
                    &&& r == Err::<(), FsError>(e)
                    &&& *final(job) == (AtaJob { phase: AtaPhase::Finished, ..*old(job) })
                    &&& *final(self) == (AtaPioBlockDevice {
                        state: if old(job).phase == AtaPhase::Present {
                            DeviceState::Offline
                        } else {
                            DeviceState::Faulted
                        },
                        ..*old(self)
                    })
                },
            },
            final(job).wf(),
    {
        let fault: bool = (status & ATA_STATUS_ERR) != 0 || (status & ATA_STATUS_DF) != 0;
        let idle: bool = (status & ATA_STATUS_BSY) == 0;
        let verdict: Option<Result<(), FsError>> = match job.phase {
            AtaPhase::Present => {
                if status == 0 || status == 0xFF {
                    Some(Err(FsError::NotFound))
                } else {
                    Some(Ok(()))
                }
            },
            AtaPhase::Drq => {
                if idle && (status & ATA_STATUS_DRQ) != 0 {
                    Some(Ok(()))
                } else if fault {
                    Some(Err(FsError::DeviceError))
                } else {
                    None
                }
            },
            _ => {
                if !idle {
                    None
                } else if fault {
                    Some(Err(FsError::DeviceError))
                } else {
                    Some(Ok(()))
                }
            },
        };
        match verdict {
            Some(Ok(_)) => {
                job.phase = match job.phase {
                    AtaPhase::Ready => AtaPhase::Command,
                    AtaPhase::Present => AtaPhase::Settle,
                    AtaPhase::Settle => {
                        if job.kind == AtaJobKind::Flush {
                            AtaPhase::Finished
                        } else {
                            AtaPhase::Drq
                        }
                    },
                    _ => AtaPhase::Data,
                };
                job.polls = 0;
                Ok(())
            },
            Some(Err(e)) => {
                self.state = if job.phase == AtaPhase::Present {
                    DeviceState::Offline
                } else {
                    DeviceState::Faulted
                };
                job.phase = AtaPhase::Finished;
                Err(e)
            },
            None => {
                if job.polls + 1 >= MAX_ATA_POLL_ITERATIONS {
                    self.state = DeviceState::Faulted;
                    job.phase = AtaPhase::Finished;
                    Err(FsError::DeviceTimeout)
                } else {
                    job.polls = job.polls + 1;
                    Ok(())
                }
            },
        }
    }

    /// A word was moved. What is read goes into the buffer; a probe learns the number of blocks
    /// and, when all words are there, takes the disk into use.
    pub fn word_moved(&mut self, job: &mut AtaJob, buf: &mut [u8; BLOCK_SIZE], word: u16)
        requires
            old(job).wf(),
            old(job).phase == AtaPhase::Data,
        ensures
            final(job).wf(),
            *final(job) == after_word(*old(job), word),
            *final(self) == disk_after(*old(self), *final(job)),
            final(buf)@ == received(old(buf)@, *old(job), word),
    {
        if job.kind == AtaJobKind::Read {
            let at: usize = 2 * (job.sector * SECTOR_WORDS + job.word);
            buf[at] = (word % 256) as u8;
            buf[at + 1] = (word / 256) as u8;
            assert(buf@ =~= old(buf)@.update(2 * old(job).moved(), (word % 256) as u8).update(
                2 * old(job).moved() + 1,
                (word / 256) as u8,
            ));
        }
        if job.kind == AtaJobKind::Probe {
            if job.word == 60 {
                job.sectors = word as u64;
            } else if job.word == 61 {
                job.sectors = job.sectors % 0x1_0000 + 0x1_0000 * word as u64;
            }
        }
        if job.word + 1 < SECTOR_WORDS {
            job.word = job.word + 1;
        } else {
            job.word = 0;
            if job.kind == AtaJobKind::Probe {
                self.total_blocks = job.sectors / SECTORS_PER_BLOCK as u64;
                self.state = DeviceState::Ready;
                job.phase = AtaPhase::Finished;
            } else if job.sector + 1 >= SECTORS_PER_BLOCK {
                job.phase = AtaPhase::Finished;
            } else {
                job.sector = job.sector + 1;
                job.phase = AtaPhase::Ready;
                job.polls = 0;
            }
        }
    }
}

/// The bytes of a command.
fn command_bytes(job: &AtaJob) -> (r: ([PortWrite; 6], usize))
    requires
        job.wf(),
        job.phase == AtaPhase::Command,
    ensures
        r.1 == job.command().len(),
        r.0@.take(r.1 as int) == job.command(),
{
    let unused = PortWrite { port: 0, value: 0, pause: false };
    match job.kind {
        AtaJobKind::Probe => {
            let writes = [
                PortWrite { port: ATA_PORT_DRIVE_HEAD, value: 0xA0, pause: true },
                PortWrite { port: ATA_PORT_SECT_COUNT, value: 0, pause: false },
                PortWrite { port: ATA_PORT_LBA_LOW, value: 0, pause: false },
                PortWrite { port: ATA_PORT_LBA_MID, value: 0, pause: false },
                PortWrite { port: ATA_PORT_LBA_HIGH, value: 0, pause: false },
                PortWrite { port: ATA_PORT_STATUS_CMD, value: ATA_CMD_IDENTIFY, pause: true },
            ];
            assert(writes@.take(6) =~= job.command());
            (writes, 6)
        },
        AtaJobKind::Flush => {
            let writes = [
                PortWrite { port: ATA_PORT_DRIVE_HEAD, value: 0xE0, pause: false },
                PortWrite { port: ATA_PORT_STATUS_CMD, value: ATA_CMD_FLUSH_CACHE, pause: false },
                unused,
                unused,
                unused,
                unused,
            ];
            assert(writes@.take(2) =~= job.command());
            (writes, 2)
        },
        _ => {
            let lba: u64 = job.lba + job.sector as u64;
            let writes = [
                PortWrite {
                    port: ATA_PORT_DRIVE_HEAD,
                    value: 0xE0 | (((lba >> 24) & 0x0F) as u8),
                    pause: false,
                },
                PortWrite { port: ATA_PORT_SECT_COUNT, value: 1, pause: false },
                PortWrite { port: ATA_PORT_LBA_LOW, value: (lba & 0xFF) as u8, pause: false },
                PortWrite {
                    port: ATA_PORT_LBA_MID,
                    value: ((lba >> 8) & 0xFF) as u8,
                    pause: false,
                },
                PortWrite {
                    port: ATA_PORT_LBA_HIGH,
                    value: ((lba >> 16) & 0xFF) as u8,
                    pause: false,
                },
                PortWrite {
                    port: ATA_PORT_STATUS_CMD,
                    value: if job.kind == AtaJobKind::Read {
                        ATA_CMD_READ_SECTORS
                    } else {
                        ATA_CMD_WRITE_SECTORS
                    },
                    pause: false,
                },
            ];
            assert(writes@.take(6) =~= job.command());
            (writes, 6)
        },
    }
}

/// Every word that is moved brings a job one word further, and a job for a block is finished with
/// the word that completes the block.
pub proof fn law_block_is_moved_whole(job: AtaJob, word: u16)
    requires
        job.wf(),
        job.phase == AtaPhase::Data,
        job.kind == AtaJobKind::Read || job.kind == AtaJobKind::Write,
    ensures
        after_word(job, word).phase == AtaPhase::Finished <==> job.moved() + 1 == 2048,
        after_word(job, word).phase != AtaPhase::Finished ==> after_word(job, word).moved()
            == job.moved() + 1,
        after_word(job, word).lba == job.lba,
{
}

/// A disk that stays busy is given up after a bounded number of looks.
pub proof fn law_waiting_is_bounded(phase: AtaPhase, polls: u32, status: u8)
    requires
        polls + 1 >= MAX_ATA_POLL_ITERATIONS,
    ensures
        status_verdict(phase, polls, status) is Some,
{
}

} // verus!
