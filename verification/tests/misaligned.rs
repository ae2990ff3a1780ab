use block_aio::error::AioError;
use block_aio::iov::Iovec;
use block_aio::mem::HostMem;
use block_aio::misaligned::{MisalignedRw, Phase, RawAction, RawEvent};
use block_aio::request::OpCode;

const BASE: u64 = 0x7f00_0000_0010;
const FSIZE: usize = 2 << 20;

fn content() -> Vec<u8> {
    (0..FSIZE).map(|i| i as u8).collect()
}

fn read_at(file: &[u8], offset: u64, len: u64) -> RawEvent {
    let from = (offset as usize).min(file.len());
    let to = (from + len as usize).min(file.len());
    RawEvent::Read {
        ret: (to - from) as i64,
        data: file[from..to].to_vec(),
    }
}

/// Runs a job against a file held in memory, and records what it asked for.
fn run(job: &mut MisalignedRw, mem: &mut HostMem, file: &mut Vec<u8>) -> (i64, Vec<RawAction>) {
    let mut asked = Vec::new();
    let mut event = RawEvent::Begin;
    loop {
        let action = job.step(mem, event);
        asked.push(action);
        match action {
            RawAction::Read { offset, len } => event = read_at(file, offset, len),
            RawAction::Write { offset, len } => {
                let from = offset as usize;
                let to = from + len as usize;
                file[from..to].copy_from_slice(&job.buffer()[..len as usize]);
                event = RawEvent::Written { ret: len as i64 };
            }
            RawAction::Done { result } => return (result, asked),
        }
    }
}

fn pattern(nbytes: usize) -> (HostMem, Vec<Iovec>, Vec<u8>) {
    let len1 = nbytes / 3;
    let len2 = nbytes - len1;
    let mut bytes = vec![0xEF; len1];
    bytes.extend(vec![0xFE; len2]);
    let iov = vec![
        Iovec::new(BASE, len1 as u64),
        Iovec::new(BASE + len1 as u64, len2 as u64),
    ];
    (HostMem::new(BASE, bytes.clone()), iov, bytes)
}

#[test]
fn aligned_direct_write_then_read() {
    // The request is made of whole cells; only its buffers are misaligned.
    let (mut mem, iov, written) = pattern(1024);
    let mut file = content();
    let mut job = MisalignedRw::new(OpCode::Pwritev, 0, 1024, 512, &iov).unwrap();
    let (result, asked) = run(&mut job, &mut mem, &mut file);
    assert_eq!(result, 0);
    assert_eq!(
        asked,
        vec![
            RawAction::Write {
                offset: 0,
                len: 1024
            },
            RawAction::Done { result: 0 }
        ]
    );
    assert_eq!(&file[..1024], &written[..]);
    assert_eq!(&file[1024..], &content()[1024..]);

    let mut back = HostMem::new(BASE, vec![0; 1024]);
    let mut job = MisalignedRw::new(OpCode::Preadv, 0, 1024, 512, &iov).unwrap();
    let (result, asked) = run(&mut job, &mut back, &mut file);
    assert_eq!(result, 0);
    assert_eq!(
        asked,
        vec![
            RawAction::Read {
                offset: 0,
                len: 1024
            },
            RawAction::Done { result: 0 }
        ]
    );
    assert_eq!(back.bytes, written);
}

#[test]
fn misaligned_direct_write_inside_one_cell() {
    let (mut mem, iov, written) = pattern(412);
    let mut file = content();
    let mut job = MisalignedRw::new(OpCode::Pwritev, 50, 412, 512, &iov).unwrap();
    let (result, asked) = run(&mut job, &mut mem, &mut file);
    assert_eq!(result, 0);
    // The head load brings the whole cell, so the tail needs no load of its own.
    assert_eq!(
        asked,
        vec![
            RawAction::Read {
                offset: 0,
                len: 512
            },
            RawAction::Write {
                offset: 0,
                len: 512
            },
            RawAction::Done { result: 0 }
        ]
    );
    assert_eq!(&file[..50], &content()[..50]);
    assert_eq!(&file[50..462], &written[..]);
    assert_eq!(&file[462..], &content()[462..]);
}

#[test]
fn misaligned_direct_write_from_a_cell_border_loads_the_tail() {
    let (mut mem, iov, written) = pattern(412);
    let mut file = content();
    let mut job = MisalignedRw::new(OpCode::Pwritev, 512, 412, 512, &iov).unwrap();
    let (result, asked) = run(&mut job, &mut mem, &mut file);
    assert_eq!(result, 0);
    assert_eq!(
        asked,
        vec![
            RawAction::Read {
                offset: 512,
                len: 512
            },
            RawAction::Write {
                offset: 512,
                len: 512
            },
            RawAction::Done { result: 0 }
        ]
    );
    assert_eq!(&file[..512], &content()[..512]);
    assert_eq!(&file[512..924], &written[..]);
    assert_eq!(&file[924..], &content()[924..]);
}

#[test]
fn misaligned_direct_write_across_cells_loads_head_and_tail() {
    let (mut mem, iov, written) = pattern(1000);
    let mut file = content();
    let mut job = MisalignedRw::new(OpCode::Pwritev, 100, 1000, 512, &iov).unwrap();
    let (result, asked) = run(&mut job, &mut mem, &mut file);
    assert_eq!(result, 0);
    assert_eq!(
        asked,
        vec![
            RawAction::Read {
                offset: 0,
                len: 512
            },
            RawAction::Read {
                offset: 1024,
                len: 512
            },
            RawAction::Write {
                offset: 0,
                len: 1536
            },
            RawAction::Done { result: 0 }
        ]
    );
    assert_eq!(&file[..100], &content()[..100]);
    assert_eq!(&file[100..1100], &written[..]);
    assert_eq!(&file[1100..], &content()[1100..]);
}

#[test]
fn misaligned_direct_read_across_windows() {
    let nbytes = 2097052;
    let (_, iov, _) = pattern(nbytes);
    let mut mem = HostMem::new(BASE, vec![0; nbytes]);
    let mut file = content();
    let mut job = MisalignedRw::new(OpCode::Preadv, 100, nbytes as u64, 512, &iov).unwrap();
    let (result, asked) = run(&mut job, &mut mem, &mut file);
    assert_eq!(result, 0);
    assert_eq!(
        asked,
        vec![
            RawAction::Read {
                offset: 0,
                len: 1 << 20
            },
            RawAction::Read {
                offset: 1 << 20,
                len: 1 << 20
            },
            RawAction::Done { result: 0 }
        ]
    );
    assert!(mem.bytes[..] == content()[100..100 + nbytes]);
}

#[test]
fn misaligned_direct_write_across_windows() {
    let nbytes = 2097052 - 100;
    let (mut mem, iov, written) = pattern(nbytes);
    let mut file = content();
    let mut job = MisalignedRw::new(OpCode::Pwritev, 100, nbytes as u64, 512, &iov).unwrap();
    let (result, asked) = run(&mut job, &mut mem, &mut file);
    assert_eq!(result, 0);
    assert_eq!(
        asked,
        vec![
            RawAction::Read {
                offset: 0,
                len: 512
            },
            RawAction::Write {
                offset: 0,
                len: 1 << 20
            },
            RawAction::Read {
                offset: (2 << 20) - 512,
                len: 512
            },
            RawAction::Write {
                offset: 1 << 20,
                len: 1 << 20
            },
            RawAction::Done { result: 0 }
        ]
    );
    assert!(file[..100] == content()[..100]);
    assert!(file[100..100 + nbytes] == written[..]);
    assert!(file[100 + nbytes..] == content()[100 + nbytes..]);
}

#[test]
fn a_short_read_fails_the_request_unless_it_covers_it() {
    let (_, iov, _) = pattern(300);
    // The request ends at byte 400 of the cell: 400 bytes are enough.
    let mut mem = HostMem::new(BASE, vec![0; 300]);
    let mut job = MisalignedRw::new(OpCode::Preadv, 100, 300, 512, &iov).unwrap();
    assert_eq!(
        job.step(&mut mem, RawEvent::Begin),
        RawAction::Read {
            offset: 0,
            len: 512
        }
    );
    assert_eq!(job.phase(), Phase::Load);
    let event = read_at(&content(), 0, 400);
    assert_eq!(job.step(&mut mem, event), RawAction::Done { result: 0 });
    assert!(mem.bytes[..] == content()[100..400]);

    let mut mem = HostMem::new(BASE, vec![0; 300]);
    let mut job = MisalignedRw::new(OpCode::Preadv, 100, 300, 512, &iov).unwrap();
    job.step(&mut mem, RawEvent::Begin);
    let event = read_at(&content(), 0, 399);
    assert_eq!(job.step(&mut mem, event), RawAction::Done { result: -1 });
    assert_eq!(mem.bytes, vec![0; 300]);
}

#[test]
fn a_failed_raw_operation_fails_the_request() {
    let (mut mem, iov, _) = pattern(412);
    let mut job = MisalignedRw::new(OpCode::Preadv, 50, 412, 512, &iov).unwrap();
    job.step(&mut mem, RawEvent::Begin);
    let failed = RawEvent::Read {
        ret: -5,
        data: Vec::new(),
    };
    assert_eq!(job.step(&mut mem, failed), RawAction::Done { result: -1 });
    assert_eq!(job.phase(), Phase::Done);
    // A job that has ended repeats its result.
    assert_eq!(
        job.step(&mut mem, RawEvent::Begin),
        RawAction::Done { result: -1 }
    );

    // A short head load.
    let mut job = MisalignedRw::new(OpCode::Pwritev, 50, 412, 512, &iov).unwrap();
    job.step(&mut mem, RawEvent::Begin);
    assert_eq!(job.phase(), Phase::Head);
    let event = read_at(&content(), 0, 511);
    assert_eq!(job.step(&mut mem, event), RawAction::Done { result: -1 });

    // A short write.
    let mut job = MisalignedRw::new(OpCode::Pwritev, 50, 412, 512, &iov).unwrap();
    job.step(&mut mem, RawEvent::Begin);
    let event = read_at(&content(), 0, 512);
    assert_eq!(
        job.step(&mut mem, event),
        RawAction::Write {
            offset: 0,
            len: 512
        }
    );
    assert_eq!(job.phase(), Phase::Store);
    assert_eq!(
        job.step(&mut mem, RawEvent::Written { ret: 511 }),
        RawAction::Done { result: -1 }
    );
}

#[test]
fn an_event_that_is_not_awaited_fails_the_request() {
    let (mut mem, iov, _) = pattern(412);
    let mut job = MisalignedRw::new(OpCode::Preadv, 50, 412, 512, &iov).unwrap();
    assert_eq!(job.phase(), Phase::Start);
    assert_eq!(
        job.step(&mut mem, RawEvent::Written { ret: 0 }),
        RawAction::Done { result: -1 }
    );
    let mut job = MisalignedRw::new(OpCode::Preadv, 50, 412, 512, &iov).unwrap();
    job.step(&mut mem, RawEvent::Begin);
    assert_eq!(
        job.step(&mut mem, RawEvent::Written { ret: 512 }),
        RawAction::Done { result: -1 }
    );
}

#[test]
fn a_vector_that_is_too_short_or_out_of_memory_fails_the_request() {
    // The vector describes 412 bytes, the request asks for 500.
    let (mut mem, iov, _) = pattern(412);
    let mut file = content();
    let mut job = MisalignedRw::new(OpCode::Pwritev, 50, 500, 512, &iov).unwrap();
    assert_eq!(run(&mut job, &mut mem, &mut file).0, -1);
    assert_eq!(file, content());
    let mut job = MisalignedRw::new(OpCode::Preadv, 50, 500, 512, &iov).unwrap();
    assert_eq!(run(&mut job, &mut mem, &mut file).0, -1);

    // The vector points outside the host memory.
    let outside = vec![Iovec::new(BASE + 400, 412)];
    let mut job = MisalignedRw::new(OpCode::Pwritev, 50, 412, 512, &outside).unwrap();
    assert_eq!(run(&mut job, &mut mem, &mut file).0, -1);
    assert_eq!(file, content());
}

#[test]
fn a_request_that_cannot_be_widened_fails() {
    let (mut mem, iov, _) = pattern(412);
    let mut file = content();
    // Neither a read nor a write.
    let mut job = MisalignedRw::new(OpCode::Fdsync, 50, 412, 512, &iov).unwrap();
    assert_eq!(
        run(&mut job, &mut mem, &mut file),
        (-1, vec![RawAction::Done { result: -1 }])
    );
    // The end of the request has no 64-bit offset.
    let mut job = MisalignedRw::new(OpCode::Preadv, u64::MAX - 100, 412, 512, &iov).unwrap();
    assert_eq!(run(&mut job, &mut mem, &mut file).0, -1);
    // The bounce buffer is no whole number of cells.
    let mut job = MisalignedRw::new(OpCode::Preadv, 50, 4 << 20, 3 << 19, &iov).unwrap();
    assert_eq!(run(&mut job, &mut mem, &mut file).0, -1);
}

#[test]
fn no_job_without_a_buffer_length() {
    let (_, iov, _) = pattern(412);
    assert!(matches!(
        MisalignedRw::new(OpCode::Preadv, 50, 412, 0, &iov),
        Err(AioError::RoundLength)
    ));
    assert!(matches!(
        MisalignedRw::new(OpCode::Preadv, 50, u64::MAX - 600, 512, &iov),
        Err(AioError::RoundLength)
    ));
}

#[test]
fn an_empty_request_moves_nothing() {
    let mut mem = HostMem::new(BASE, vec![7; 8]);
    let iov = vec![Iovec::new(BASE + 1, 0)];
    let mut file = content();
    let mut job = MisalignedRw::new(OpCode::Pwritev, 1024, 0, 512, &iov).unwrap();
    assert_eq!(
        run(&mut job, &mut mem, &mut file),
        (
            0,
            vec![
                RawAction::Write {
                    offset: 1024,
                    len: 0
                },
                RawAction::Done { result: 0 }
            ]
        )
    );
    assert_eq!(file, content());
}

#[test]
fn raw_operations_stay_inside_the_widened_range() {
    for (offset, nbytes, align) in [
        (0u64, 1024usize, 512u64),
        (50, 412, 512),
        (100, 5000, 512),
        (4095, 2, 4096),
        (1, (1 << 20) + 7, 1024),
        (513, 0, 512),
    ] {
        for opcode in [OpCode::Preadv, OpCode::Pwritev] {
            let (mut mem, iov, _) = pattern(nbytes);
            let mut file = content();
            let mut job = MisalignedRw::new(opcode, offset, nbytes as u64, align as u32, &iov).unwrap();
            let (result, asked) = run(&mut job, &mut mem, &mut file);
            assert_eq!(result, 0);
            let low = offset / align * align;
            let high = (offset + nbytes as u64 + align - 1) / align * align;
            let mut next = low;
            for action in asked {
                match action {
                    RawAction::Read { offset, len } => {
                        assert!(low <= offset && offset + len <= high);
                        if opcode == OpCode::Preadv {
                            // The windows of a read follow one another.
                            assert_eq!(offset, next);
                            next = offset + len;
                        }
                    }
                    RawAction::Write { offset, len } => {
                        assert!(low <= offset && offset + len <= high);
                        assert_eq!(offset, next);
                        next = offset + len;
                    }
                    RawAction::Done { .. } => {}
                }
            }
            assert_eq!(next, high);
        }
    }
}

#[test]
fn a_read_returns_what_a_write_has_written() {
    for (offset, nbytes) in [(50u64, 412usize), (100, 3000), (7, (1 << 20) + 100), (1024, 512)] {
        let (mut from, iov, written) = pattern(nbytes);
        let mut file = content();
        let mut job = MisalignedRw::new(OpCode::Pwritev, offset, nbytes as u64, 512, &iov).unwrap();
        assert_eq!(run(&mut job, &mut from, &mut file).0, 0);
        // The vector of the read is cut otherwise than that of the write.
        let mut into = HostMem::new(BASE, vec![0; nbytes + 64]);
        let back = vec![
            Iovec::new(BASE + 64 + nbytes as u64 / 2, (nbytes - nbytes / 2) as u64),
            Iovec::new(BASE, 0),
            Iovec::new(BASE + 32, nbytes as u64 / 2),
        ];
        let mut job = MisalignedRw::new(OpCode::Preadv, offset, nbytes as u64, 4096, &back).unwrap();
        assert_eq!(run(&mut job, &mut into, &mut file).0, 0);
        let half = nbytes / 2;
        assert!(into.bytes[64 + half..64 + nbytes] == written[..nbytes - half]);
        assert!(into.bytes[32..32 + half] == written[nbytes - half..]);
    }
}
