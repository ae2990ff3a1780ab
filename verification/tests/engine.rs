use std::sync::atomic::{AtomicI64, AtomicU32, Ordering};
use std::sync::Arc;

use block_aio::engine::{Aio, AioEngine, AioEvent, Completion, Submitted, MAX_EVENTS};
use block_aio::error::AioError;
use block_aio::file::{handler_reaps, BlockProperty, FileDriver};
use block_aio::iov::Iovec;
use block_aio::mem::HostMem;
use block_aio::request::{combine_outcome, AioCb, AioReqResult, OpCode, WriteZeroesState};
use block_aio::sync::{rw_result, RawOp, SyncStep};

const BASE: u64 = 0x4000;

fn request(opcode: OpCode, id: u32) -> AioCb<u32> {
    AioCb {
        direct: false,
        req_align: 512,
        buf_align: 512,
        discard: false,
        write_zeroes: WriteZeroesState::Off,
        file_fd: 3,
        opcode,
        iovec: vec![Iovec::new(BASE, 512)],
        offset: 512 * id as u64,
        nbytes: 512,
        user_data: 0,
        iocompletecb: id,
        combine_req: None,
    }
}

fn memory() -> HostMem {
    HostMem::new(BASE, vec![0x5A; 4096])
}

/// A backend that takes what it is given, up to a limit per batch, and
/// completes it when asked to.
struct Backend {
    held: Vec<(u64, u64)>,
    per_batch: usize,
    fail_batch: Option<usize>,
    batches: usize,
    vectored_writes: usize,
    most_held: usize,
}

fn backend(per_batch: usize) -> Backend {
    Backend {
        held: Vec::new(),
        per_batch,
        fail_batch: None,
        batches: 0,
        vectored_writes: 0,
        most_held: 0,
    }
}

fn submit(be: &mut Backend, batch: &[&AioCb<u32>]) -> Option<usize> {
    be.batches += 1;
    if be.fail_batch == Some(be.batches) {
        return None;
    }
    let count = batch.len().min(be.per_batch);
    for cb in &batch[..count] {
        if cb.opcode == OpCode::Pwritev {
            be.vectored_writes += 1;
        }
        be.held.push((cb.user_data, cb.nbytes));
    }
    be.most_held = be.most_held.max(be.held.len());
    Some(count)
}

fn events(be: &mut Backend) -> Vec<AioEvent> {
    be.held
        .drain(..)
        .map(|(user_data, nbytes)| AioEvent {
            user_data,
            status: 0,
            res: nbytes as i64,
        })
        .collect()
}

/// Processes the pending queue, and returns what was handed out on the way.
fn process(aio: &mut Aio<u32>, be: &mut Backend) -> Vec<Completion<u32>> {
    let mut done = Vec::new();
    loop {
        let accepted = {
            let batch = aio.batch();
            if batch.is_empty() {
                break;
            }
            submit(be, &batch)
        };
        let flushed = aio.submitted(accepted);
        done.extend(flushed.failed);
        assert!(aio.in_flight_len() <= MAX_EVENTS);
        assert_eq!(aio.in_flight_len(), be.held.len());
        if !flushed.again {
            break;
        }
    }
    done
}

#[test]
fn requests_without_a_backend_are_served_at_once() {
    let mut aio: Aio<u32> = Aio::new(AioEngine::Off);
    assert_eq!(aio.get_engine(), AioEngine::Off);
    let mem = memory();
    for opcode in [
        OpCode::Preadv,
        OpCode::Pwritev,
        OpCode::Fdsync,
        OpCode::Discard,
        OpCode::WriteZeroes,
        OpCode::WriteZeroesUnmap,
    ] {
        match aio.submit_request(request(opcode, 7), &mem) {
            Ok(Submitted::Sync { cb }) => {
                assert_eq!(cb.opcode, opcode);
                assert_eq!(cb.iocompletecb, 7);
            }
            _ => panic!("served otherwise"),
        }
        assert_eq!(aio.incomplete(), 0);
    }
    assert!(aio.batch().is_empty());
    let (done, seen) = aio.handle_complete(&[AioEvent {
        user_data: 0,
        status: 0,
        res: 512,
    }]);
    assert!(done.is_empty());
    assert!(!seen);
}

#[test]
fn a_backend_serves_reads_writes_and_flushes_only() {
    let mut aio: Aio<u32> = Aio::new(AioEngine::Native);
    let mem = memory();
    for opcode in [OpCode::Preadv, OpCode::Pwritev, OpCode::Fdsync] {
        assert!(matches!(
            aio.submit_request(request(opcode, 1), &mem),
            Ok(Submitted::Queued { flush: false })
        ));
    }
    assert_eq!(aio.incomplete(), 3);
    assert_eq!(aio.pending_len(), 3);
    assert_eq!(aio.incomplete_cnt().load(Ordering::SeqCst), 3);
    for opcode in [OpCode::Discard, OpCode::WriteZeroes, OpCode::WriteZeroesUnmap] {
        assert!(matches!(
            aio.submit_request(request(opcode, 1), &mem),
            Ok(Submitted::Sync { .. })
        ));
    }
    assert_eq!(aio.incomplete(), 3);
}

#[test]
fn a_request_without_an_operation_is_refused() {
    let mem = memory();
    for engine in [AioEngine::Off, AioEngine::Native, AioEngine::IoUring] {
        let mut aio: Aio<u32> = Aio::new(engine);
        assert!(matches!(
            aio.submit_request(request(OpCode::Noop, 1), &mem),
            Err(AioError::NoOpcode)
        ));
        assert_eq!(aio.incomplete(), 0);
    }
}

#[test]
fn misaligned_direct_io_goes_to_the_bounce_buffer() {
    let mem = memory();
    let mut aio: Aio<u32> = Aio::new(AioEngine::Native);
    // Aligned in every respect: queued.
    let mut cb = request(OpCode::Pwritev, 2);
    cb.direct = true;
    assert!(matches!(
        aio.submit_request(cb, &mem),
        Ok(Submitted::Queued { .. })
    ));
    // A misaligned offset, buffer or length: bounced, whatever the backend.
    let mut by_offset = request(OpCode::Preadv, 2);
    by_offset.direct = true;
    by_offset.offset = 100;
    let mut by_base = request(OpCode::Preadv, 2);
    by_base.direct = true;
    by_base.iovec = vec![Iovec::new(BASE + 8, 512)];
    let mut by_len = request(OpCode::Pwritev, 2);
    by_len.direct = true;
    by_len.iovec = vec![Iovec::new(BASE, 500), Iovec::new(BASE + 512, 12)];
    for cb in [by_offset, by_base, by_len] {
        assert!(cb.request_misaligned());
        match aio.submit_request(cb, &mem) {
            Ok(Submitted::Misaligned { cb, job: _ }) => assert_eq!(cb.iocompletecb, 2),
            _ => panic!("not bounced"),
        }
    }
    assert_eq!(aio.incomplete(), 1);
    // Alignment matters for direct reads and writes only.
    let mut buffered = request(OpCode::Preadv, 2);
    buffered.offset = 100;
    assert!(!buffered.request_misaligned());
    let mut flush = request(OpCode::Fdsync, 2);
    flush.direct = true;
    flush.offset = 100;
    assert!(!flush.request_misaligned());
}

#[test]
fn a_misaligned_request_that_cannot_be_rounded_is_refused() {
    let mem = memory();
    let mut aio: Aio<u32> = Aio::new(AioEngine::Off);
    let mut cb = request(OpCode::Preadv, 2);
    cb.direct = true;
    cb.req_align = 0;
    assert!(matches!(
        aio.submit_request(cb, &mem),
        Err(AioError::RoundLength)
    ));
    let mut cb = request(OpCode::Preadv, 2);
    cb.direct = true;
    cb.offset = 1;
    cb.nbytes = u64::MAX - 1000;
    assert!(matches!(
        aio.submit_request(cb, &mem),
        Err(AioError::RoundLength)
    ));
}

#[test]
fn write_zeroes_promotion() {
    let mem = HostMem::new(BASE, vec![0; 4096]);
    let mut be = backend(MAX_EVENTS);
    let mut aio: Aio<u32> = Aio::new(AioEngine::Native);
    let mut cb = request(OpCode::Pwritev, 0);
    cb.write_zeroes = WriteZeroesState::On;
    cb.iovec = vec![Iovec::new(BASE, 4096)];
    cb.nbytes = 4096;
    let served = match aio.submit_request(cb, &mem) {
        Ok(Submitted::Sync { cb }) => cb,
        _ => panic!("not promoted"),
    };
    assert_eq!(served.opcode, OpCode::WriteZeroes);
    assert_eq!(served.nbytes, 4096);
    // The file that takes the zeroing call reads back zeros.
    let mut file = vec![0xFFu8; 8192];
    let mut step = served.sync_begin();
    assert_eq!(step, SyncStep::Run(RawOp::WriteZeroes));
    while let SyncStep::Run(op) = step {
        assert_eq!(op, RawOp::WriteZeroes);
        let from = served.offset as usize;
        file[from..from + served.nbytes as usize].fill(0);
        step = served.sync_after(op, 0);
    }
    assert_eq!(step, SyncStep::Done(0));
    assert_eq!(&file[..4096], &[0u8; 4096][..]);
    assert_eq!(&file[4096..], &[0xFFu8; 4096][..]);
    // The backend has seen no vectored write.
    assert!(process(&mut aio, &mut be).is_empty());
    assert_eq!(be.vectored_writes, 0);
    assert_eq!(be.batches, 0);
}

#[test]
fn promotion_follows_the_policy() {
    let zero = HostMem::new(BASE, vec![0; 4096]);
    let mut data = HostMem::new(BASE, vec![0; 4096]);
    data.bytes[511] = 1;
    let promoted = |policy: WriteZeroesState, discard: bool, mem: &HostMem| {
        let mut aio: Aio<u32> = Aio::new(AioEngine::Off);
        let mut cb = request(OpCode::Pwritev, 0);
        cb.write_zeroes = policy;
        cb.discard = discard;
        match aio.submit_request(cb, mem) {
            Ok(Submitted::Sync { cb }) => cb.opcode,
            _ => panic!("not served at once"),
        }
    };
    assert_eq!(promoted(WriteZeroesState::Off, true, &zero), OpCode::Pwritev);
    assert_eq!(promoted(WriteZeroesState::On, false, &zero), OpCode::WriteZeroes);
    assert_eq!(promoted(WriteZeroesState::On, true, &zero), OpCode::WriteZeroes);
    assert_eq!(
        promoted(WriteZeroesState::Unmap, false, &zero),
        OpCode::WriteZeroes
    );
    assert_eq!(
        promoted(WriteZeroesState::Unmap, true, &zero),
        OpCode::WriteZeroesUnmap
    );
    assert_eq!(promoted(WriteZeroesState::On, true, &data), OpCode::Pwritev);
    assert_eq!(promoted(WriteZeroesState::Unmap, true, &data), OpCode::Pwritev);
    // Reads are never promoted.
    let mut aio: Aio<u32> = Aio::new(AioEngine::Off);
    let mut cb = request(OpCode::Preadv, 0);
    cb.write_zeroes = WriteZeroesState::Unmap;
    match aio.submit_request(cb, &zero) {
        Ok(Submitted::Sync { cb }) => assert_eq!(cb.opcode, OpCode::Preadv),
        _ => panic!("not served at once"),
    }
}

#[test]
fn backend_saturation() {
    let mem = memory();
    let mut be = backend(MAX_EVENTS);
    let mut aio: Aio<u32> = Aio::new(AioEngine::Native);
    let mut calls = vec![0u32; 200];
    let mut complete = |done: Vec<Completion<u32>>, calls: &mut Vec<u32>| {
        for c in done {
            assert_eq!(c.result, 512);
            calls[c.cb.iocompletecb as usize] += 1;
        }
    };
    for id in 0..200u32 {
        let flush = match aio.submit_request(request(OpCode::Pwritev, id), &mem) {
            Ok(Submitted::Queued { flush }) => flush,
            _ => panic!("not queued"),
        };
        assert_eq!(flush, aio.incomplete() >= MAX_EVENTS);
        if flush {
            let failed = process(&mut aio, &mut be);
            assert!(failed.is_empty());
        }
        assert!(aio.in_flight_len() <= MAX_EVENTS);
        // Once the backend is full, a completion makes room.
        if aio.in_flight_len() == MAX_EVENTS && id % 10 == 0 {
            let reaped = events(&mut be);
            let (done, seen) = aio.handle_complete(&reaped);
            assert!(seen);
            assert_eq!(done.len(), MAX_EVENTS);
            complete(done, &mut calls);
            assert!(process(&mut aio, &mut be).is_empty());
        }
    }
    while aio.incomplete() > 0 {
        assert!(process(&mut aio, &mut be).is_empty());
        let reaped = events(&mut be);
        let (done, _) = aio.handle_complete(&reaped);
        complete(done, &mut calls);
    }
    assert_eq!(be.most_held, MAX_EVENTS);
    assert_eq!(be.vectored_writes, 200);
    assert_eq!(calls, vec![1u32; 200]);
    assert_eq!(aio.incomplete(), 0);
    assert_eq!(aio.incomplete_cnt().load(Ordering::SeqCst), 0);
}

#[test]
fn submit_error_recovery() {
    let mem = memory();
    let mut be = backend(2);
    be.fail_batch = Some(3);
    let mut aio: Aio<u32> = Aio::new(AioEngine::IoUring);
    for id in 0..10u32 {
        assert!(matches!(
            aio.submit_request(request(OpCode::Preadv, id), &mem),
            Ok(Submitted::Queued { flush: false })
        ));
    }
    // Two batches of two are taken, the third fails: the oldest request
    // still pending fails with it, the rest is submitted on.
    let failed = process(&mut aio, &mut be);
    assert_eq!(failed.len(), 1);
    assert_eq!(failed[0].result, -1);
    assert_eq!(failed[0].cb.iocompletecb, 4);
    assert_eq!(be.batches, 3 + 3);
    assert_eq!(aio.pending_len(), 0);
    assert_eq!(aio.in_flight_len(), 9);
    let reaped = events(&mut be);
    let (done, seen) = aio.handle_complete(&reaped);
    assert!(seen);
    let mut ids: Vec<u32> = done.iter().map(|c| c.cb.iocompletecb).collect();
    assert!(done.iter().all(|c| c.result == 512));
    assert_eq!(ids, vec![0, 1, 2, 3, 5, 6, 7, 8, 9]);
    ids.push(failed[0].cb.iocompletecb);
    ids.sort();
    assert_eq!(ids, (0..10).collect::<Vec<u32>>());
    assert_eq!(aio.incomplete(), 0);
    assert_eq!(aio.incomplete_cnt().load(Ordering::SeqCst), 0);
}

#[test]
fn the_batch_starts_with_the_oldest_request() {
    let mem = memory();
    let mut aio: Aio<u32> = Aio::new(AioEngine::Native);
    for id in 0..5u32 {
        aio.submit_request(request(OpCode::Pwritev, id), &mem).unwrap();
    }
    let order: Vec<u32> = aio.batch().iter().map(|cb| cb.iocompletecb).collect();
    assert_eq!(order, vec![0, 1, 2, 3, 4]);
    let tags: Vec<u64> = aio.batch().iter().map(|cb| cb.user_data).collect();
    assert_eq!(tags, vec![0, 1, 2, 3, 4]);
    // The backend takes two; the other three are offered again, in order.
    let flushed = aio.submitted(Some(2));
    assert!(flushed.failed.is_none());
    assert!(flushed.again);
    assert_eq!(aio.in_flight_len(), 2);
    let order: Vec<u32> = aio.batch().iter().map(|cb| cb.iocompletecb).collect();
    assert_eq!(order, vec![2, 3, 4]);
    // It takes nothing: the queue waits for the next completion.
    let flushed = aio.submitted(Some(0));
    assert!(flushed.failed.is_none());
    assert!(!flushed.again);
    assert_eq!(aio.pending_len(), 3);
    // It claims more than it was given: the batch counts.
    let flushed = aio.submitted(Some(100));
    assert!(!flushed.again);
    assert_eq!(aio.pending_len(), 0);
    assert_eq!(aio.in_flight_len(), 5);
    // Nothing is on offer: an answer changes nothing.
    let flushed = aio.submitted(None);
    assert!(flushed.failed.is_none());
    assert!(!flushed.again);
    assert_eq!(aio.incomplete(), 5);
}

#[test]
fn the_batch_is_what_the_backend_has_room_for() {
    let mem = memory();
    let mut aio: Aio<u32> = Aio::new(AioEngine::Native);
    for id in 0..130u32 {
        aio.submit_request(request(OpCode::Pwritev, id), &mem).unwrap();
    }
    assert_eq!(aio.batch().len(), MAX_EVENTS);
    let flushed = aio.submitted(Some(120));
    assert!(flushed.again);
    assert_eq!(aio.batch().len(), 8);
    let flushed = aio.submitted(Some(8));
    assert!(!flushed.again);
    assert_eq!(aio.in_flight_len(), MAX_EVENTS);
    assert_eq!(aio.pending_len(), 2);
    assert!(aio.batch().is_empty());
}

#[test]
fn completion_results() {
    let mem = memory();
    let mut aio: Aio<u32> = Aio::new(AioEngine::Native);
    for id in 0..4u32 {
        aio.submit_request(request(OpCode::Preadv, id), &mem).unwrap();
    }
    aio.submitted(Some(4));
    let reaped = [
        // In full and without error.
        AioEvent {
            user_data: 2,
            status: 0,
            res: 512,
        },
        // Short.
        AioEvent {
            user_data: 0,
            status: 0,
            res: 511,
        },
        // No request in flight carries this tag.
        AioEvent {
            user_data: 77,
            status: 0,
            res: 512,
        },
        // An error status.
        AioEvent {
            user_data: 3,
            status: -5,
            res: 512,
        },
        // A second event for a request that has left.
        AioEvent {
            user_data: 2,
            status: 0,
            res: 512,
        },
    ];
    let (done, seen) = aio.handle_complete(&reaped);
    assert!(seen);
    let got: Vec<(u32, i64)> = done.iter().map(|c| (c.cb.iocompletecb, c.result)).collect();
    assert_eq!(got, vec![(2, 512), (0, -1), (3, -1)]);
    assert_eq!(aio.in_flight_len(), 1);
    let (done, seen) = aio.handle_complete(&[]);
    assert!(done.is_empty());
    assert!(!seen);
    let (done, _) = aio.handle_complete(&[AioEvent {
        user_data: 1,
        status: 0,
        res: -4,
    }]);
    assert_eq!(done.len(), 1);
    assert_eq!(done[0].result, -1);
    assert_eq!(aio.incomplete(), 0);
}

#[test]
fn what_is_taken_is_held_or_handed_out() {
    let mem = memory();
    let mut be = backend(3);
    be.fail_batch = Some(2);
    let mut aio: Aio<u32> = Aio::new(AioEngine::Native);
    let mut taken = 0;
    let mut handed_out = 0;
    for id in 0..40u32 {
        let opcode = if id % 4 == 3 {
            OpCode::Discard
        } else {
            OpCode::Pwritev
        };
        if let Ok(Submitted::Queued { .. }) = aio.submit_request(request(opcode, id), &mem) {
            taken += 1;
        }
        if id % 7 == 0 {
            handed_out += process(&mut aio, &mut be).len();
        }
        if id % 11 == 0 {
            let reaped = events(&mut be);
            handed_out += aio.handle_complete(&reaped).0.len();
        }
        assert_eq!(aio.incomplete() + handed_out, taken);
    }
    assert_eq!(taken, 30);
}

#[test]
fn sync_results() {
    assert_eq!(rw_result(512, 512), 512);
    assert_eq!(rw_result(512, 511), -1);
    assert_eq!(rw_result(512, 513), -1);
    assert_eq!(rw_result(512, -9), -9);
    assert_eq!(rw_result(0, 0), 0);
    let read = request(OpCode::Preadv, 0);
    assert_eq!(read.sync_begin(), SyncStep::Run(RawOp::Readv));
    assert_eq!(read.sync_after(RawOp::Readv, 512), SyncStep::Done(512));
    assert_eq!(read.sync_after(RawOp::Readv, 100), SyncStep::Done(-1));
    assert_eq!(read.sync_after(RawOp::Writev, 512), SyncStep::Done(-1));
    let write = request(OpCode::Pwritev, 0);
    assert_eq!(write.sync_begin(), SyncStep::Run(RawOp::Writev));
    assert_eq!(write.sync_after(RawOp::Writev, -28), SyncStep::Done(-28));
    let flush = request(OpCode::Fdsync, 0);
    assert_eq!(flush.sync_begin(), SyncStep::Run(RawOp::Datasync));
    assert_eq!(flush.sync_after(RawOp::Datasync, 0), SyncStep::Done(0));
    assert_eq!(flush.sync_after(RawOp::Datasync, -5), SyncStep::Done(-5));
    let discard = request(OpCode::Discard, 0);
    assert_eq!(discard.sync_begin(), SyncStep::Run(RawOp::Discard));
    assert_eq!(discard.sync_after(RawOp::Discard, -95), SyncStep::Done(-95));
    let zero = request(OpCode::WriteZeroes, 0);
    assert_eq!(zero.sync_begin(), SyncStep::Run(RawOp::WriteZeroes));
    assert_eq!(zero.sync_after(RawOp::WriteZeroes, 0), SyncStep::Done(0));
    assert_eq!(request(OpCode::Noop, 0).sync_begin(), SyncStep::Done(-1));
}

#[test]
fn zeroing_with_unmap_falls_back_when_discard_fails() {
    let unmap = request(OpCode::WriteZeroesUnmap, 0);
    assert_eq!(unmap.sync_begin(), SyncStep::Run(RawOp::Discard));
    assert_eq!(unmap.sync_after(RawOp::Discard, 0), SyncStep::Done(0));
    assert_eq!(
        unmap.sync_after(RawOp::Discard, -95),
        SyncStep::Run(RawOp::WriteZeroes)
    );
    assert_eq!(unmap.sync_after(RawOp::WriteZeroes, 0), SyncStep::Done(0));
    assert_eq!(unmap.sync_after(RawOp::WriteZeroes, -28), SyncStep::Done(-28));
}

#[test]
fn combined_requests() {
    assert_eq!(combine_outcome(3, 0), AioReqResult::Inflight);
    assert_eq!(combine_outcome(2, -5), AioReqResult::Inflight);
    assert_eq!(combine_outcome(1, 0), AioReqResult::Done);
    assert_eq!(combine_outcome(1, -5), AioReqResult::Error(-5));

    assert_eq!(request(OpCode::Preadv, 0).req_is_completed(-1), AioReqResult::Done);

    let left = Arc::new(AtomicU32::new(3));
    let status = Arc::new(AtomicI64::new(0));
    let mut parts = Vec::new();
    for id in 0..3 {
        let mut cb = request(OpCode::Preadv, id);
        cb.combine_req = Some((left.clone(), status.clone()));
        parts.push(cb);
    }
    assert_eq!(parts[0].req_is_completed(512), AioReqResult::Inflight);
    assert_eq!(parts[1].req_is_completed(-5), AioReqResult::Inflight);
    // The first failure stays; the last part to complete reports it.
    assert_eq!(parts[2].req_is_completed(-7), AioReqResult::Error(-5));
    assert_eq!(left.load(Ordering::SeqCst), 0);
    assert_eq!(status.load(Ordering::SeqCst), -5);

    let left = Arc::new(AtomicU32::new(2));
    let status = Arc::new(AtomicI64::new(0));
    let mut cb = request(OpCode::Pwritev, 0);
    cb.combine_req = Some((left, status));
    assert_eq!(cb.req_is_completed(512), AioReqResult::Inflight);
    assert_eq!(cb.req_is_completed(512), AioReqResult::Done);
}

#[test]
fn names_of_the_configuration_values() {
    assert_eq!(AioEngine::from_str("off"), Ok(AioEngine::Off));
    assert_eq!(AioEngine::from_str("native"), Ok(AioEngine::Native));
    assert_eq!(AioEngine::from_str("uring"), Ok(AioEngine::IoUring));
    assert_eq!(AioEngine::from_str("io_uring"), Err(()));
    assert_eq!(AioEngine::from_str("urin"), Err(()));
    assert_eq!(AioEngine::from_str("uring "), Err(()));
    assert_eq!(AioEngine::from_str("Off"), Err(()));
    assert_eq!(AioEngine::from_str(""), Err(()));
    assert_eq!(AioEngine::from_str("offf"), Err(()));
    assert_eq!(WriteZeroesState::from_str("off"), Ok(WriteZeroesState::Off));
    assert_eq!(WriteZeroesState::from_str("on"), Ok(WriteZeroesState::On));
    assert_eq!(
        WriteZeroesState::from_str("unmap"),
        Ok(WriteZeroesState::Unmap)
    );
    assert_eq!(WriteZeroesState::from_str("no"), Err(()));
    assert_eq!(WriteZeroesState::from_str("unmap "), Err(()));
}

#[test]
fn handlers_of_the_completion_descriptor() {
    for engine in [AioEngine::Off, AioEngine::Native, AioEngine::IoUring] {
        assert!(!handler_reaps(true, false, engine));
        assert!(!handler_reaps(true, true, engine));
        assert!(handler_reaps(false, false, engine));
    }
    assert!(!handler_reaps(false, true, AioEngine::Off));
    assert!(handler_reaps(false, true, AioEngine::Native));
    assert!(handler_reaps(false, true, AioEngine::IoUring));
}

fn driver(engine: AioEngine, direct: bool) -> FileDriver<u32> {
    FileDriver::new(
        9,
        Aio::new(engine),
        BlockProperty {
            iothread: None,
            direct,
            req_align: 512,
            buf_align: 4096,
            discard: true,
            write_zeroes: WriteZeroesState::Unmap,
        },
    )
}

#[test]
fn the_driver_packages_what_it_submits() {
    let mem = HostMem::new(BASE, vec![1; 4096]);
    let mut file = driver(AioEngine::Off, false);
    let iov = [Iovec::new(BASE, 100), Iovec::new(BASE + 200, 28)];
    let cb = match file.read_vectored(&mem, &iov, 1000, 5) {
        Ok(Submitted::Sync { cb }) => cb,
        _ => panic!("not served at once"),
    };
    assert_eq!(cb.opcode, OpCode::Preadv);
    assert_eq!(cb.iovec, iov.to_vec());
    assert_eq!(cb.offset, 1000);
    assert_eq!(cb.nbytes, 128);
    assert_eq!(cb.file_fd, 9);
    assert_eq!(cb.iocompletecb, 5);
    assert_eq!(cb.user_data, 0);
    assert!(!cb.direct);
    assert_eq!((cb.req_align, cb.buf_align), (512, 4096));
    assert!(cb.discard);
    assert_eq!(cb.write_zeroes, WriteZeroesState::Unmap);
    assert!(cb.combine_req.is_none());

    let cb = match file.write_vectored(&mem, &iov, 8, 6) {
        Ok(Submitted::Sync { cb }) => cb,
        _ => panic!("not served at once"),
    };
    assert_eq!((cb.opcode, cb.offset, cb.nbytes), (OpCode::Pwritev, 8, 128));

    let cb = match file.write_zeroes(&mem, 4096, 8192, 7, false) {
        Ok(Submitted::Sync { cb }) => cb,
        _ => panic!("not served at once"),
    };
    assert_eq!(
        (cb.opcode, cb.offset, cb.nbytes),
        (OpCode::WriteZeroes, 4096, 8192)
    );
    assert!(cb.iovec.is_empty());
    let cb = match file.write_zeroes(&mem, 4096, 8192, 7, true) {
        Ok(Submitted::Sync { cb }) => cb,
        _ => panic!("not served at once"),
    };
    assert_eq!(cb.opcode, OpCode::WriteZeroesUnmap);

    let cb = match file.discard(&mem, 512, 1024, 8) {
        Ok(Submitted::Sync { cb }) => cb,
        _ => panic!("not served at once"),
    };
    assert_eq!((cb.opcode, cb.offset, cb.nbytes), (OpCode::Discard, 512, 1024));

    let cb = match file.datasync(&mem, 9) {
        Ok(Submitted::Sync { cb }) => cb,
        _ => panic!("not served at once"),
    };
    assert_eq!((cb.opcode, cb.offset, cb.nbytes), (OpCode::Fdsync, 0, 0));
    assert!(file.drained());
}

#[test]
fn the_driver_queues_for_its_backend() {
    let mem = HostMem::new(BASE, vec![1; 4096]);
    let mut file = driver(AioEngine::Native, true);
    // Direct and aligned in every respect.
    let iov = [Iovec::new(0x10000, 512)];
    assert!(matches!(
        file.write_vectored(&mem, &iov, 1024, 1),
        Ok(Submitted::Queued { flush: false })
    ));
    assert!(!file.drained());
    assert_eq!(file.aio.incomplete(), 1);
    // The buffer is aligned for the request, but not as the file asks.
    let iov = [Iovec::new(BASE + 512, 512)];
    assert!(matches!(
        file.read_vectored(&mem, &iov, 1024, 2),
        Ok(Submitted::Misaligned { .. })
    ));
    assert!(matches!(
        file.datasync(&mem, 3),
        Ok(Submitted::Queued { flush: false })
    ));
    assert_eq!(file.aio.incomplete(), 2);
    let flushed = file.aio.submitted(Some(2));
    assert!(!flushed.again);
    let (done, seen) = file.aio.handle_complete(&[
        AioEvent {
            user_data: 1,
            status: 0,
            res: 0,
        },
        AioEvent {
            user_data: 0,
            status: 0,
            res: 512,
        },
    ]);
    assert!(seen);
    let got: Vec<(u32, OpCode, i64)> = done
        .iter()
        .map(|c| (c.cb.iocompletecb, c.cb.opcode, c.result))
        .collect();
    assert_eq!(got, vec![(3, OpCode::Fdsync, 0), (1, OpCode::Pwritev, 512)]);
    assert!(file.drained());
}

#[test]
fn the_published_counter_stays_the_same_counter() {
    let mem = memory();
    let mut aio: Aio<u32> = Aio::new(AioEngine::Native);
    let watched = aio.incomplete_cnt().clone();
    assert_eq!(watched.load(Ordering::Acquire), 0);
    for id in 0..3u32 {
        aio.submit_request(request(OpCode::Pwritev, id), &mem).unwrap();
    }
    assert!(Arc::ptr_eq(&watched, aio.incomplete_cnt()));
    assert_eq!(watched.load(Ordering::Acquire), 3);
    aio.submitted(None);
    assert_eq!(watched.load(Ordering::Acquire), 2);
    aio.submitted(Some(2));
    let (done, _) = aio.handle_complete(&[AioEvent {
        user_data: 1,
        status: 0,
        res: 512,
    }]);
    assert_eq!(done.len(), 1);
    assert!(Arc::ptr_eq(&watched, aio.incomplete_cnt()));
    assert_eq!(watched.load(Ordering::Acquire), 1);
    assert_eq!(aio.incomplete(), 1);
}

#[test]
fn the_engine_looks_at_memory_only_where_it_has_to() {
    // Buffered reads and writes, flushes, discards: never.
    for opcode in [
        OpCode::Preadv,
        OpCode::Pwritev,
        OpCode::Fdsync,
        OpCode::Discard,
        OpCode::WriteZeroes,
    ] {
        assert!(!request(opcode, 1).needs_memory());
    }
    // A write that may be a write of zeros.
    let mut cb = request(OpCode::Pwritev, 1);
    cb.write_zeroes = WriteZeroesState::On;
    assert!(cb.needs_memory());
    let mut cb = request(OpCode::Preadv, 1);
    cb.write_zeroes = WriteZeroesState::Unmap;
    assert!(!cb.needs_memory());
    // Direct I/O that has to be bounced.
    let mut cb = request(OpCode::Preadv, 1);
    cb.direct = true;
    assert!(!cb.needs_memory());
    cb.offset = 7;
    assert!(cb.needs_memory());
    // Where the engine does not look, no memory does as well as the real one.
    let none = HostMem::new(0, Vec::new());
    let mut aio: Aio<u32> = Aio::new(AioEngine::Off);
    match aio.submit_request(request(OpCode::Pwritev, 4), &none) {
        Ok(Submitted::Sync { cb }) => assert_eq!(cb.opcode, OpCode::Pwritev),
        _ => panic!("not served at once"),
    }
    // The driver decides by the properties of its file.
    let file = driver(AioEngine::Native, true);
    let aligned = [Iovec::new(0x10000, 512)];
    assert!(!file.needs_memory(OpCode::Preadv, &aligned, 1024));
    assert!(file.needs_memory(OpCode::Preadv, &aligned, 1000));
    assert!(file.needs_memory(OpCode::Preadv, &[Iovec::new(BASE + 512, 512)], 1024));
    assert!(file.needs_memory(OpCode::Pwritev, &aligned, 1024));
    assert!(!file.needs_memory(OpCode::Fdsync, &[], 0));
    let file = driver(AioEngine::Native, false);
    assert!(!file.needs_memory(OpCode::Preadv, &aligned, 1000));
}

#[test]
fn two_hundred_writes_without_a_completion() {
    let mem = memory();
    let mut be = backend(MAX_EVENTS);
    let mut aio: Aio<u32> = Aio::new(AioEngine::Native);
    let mut handed: Vec<Vec<u32>> = Vec::new();
    for id in 0..200u32 {
        let flush = match aio.submit_request(request(OpCode::Pwritev, id), &mem) {
            Ok(Submitted::Queued { flush }) => flush,
            _ => panic!("not queued"),
        };
        assert_eq!(flush, id >= 127);
        if flush {
            loop {
                let order: Vec<u32> = aio.batch().iter().map(|cb| cb.iocompletecb).collect();
                if order.is_empty() {
                    break;
                }
                let accepted = submit(&mut be, &aio.batch());
                handed.push(order);
                let flushed = aio.submitted(accepted);
                assert!(flushed.failed.is_none());
                if !flushed.again {
                    break;
                }
            }
        }
    }
    assert_eq!(aio.in_flight_len(), 128);
    assert_eq!(aio.pending_len(), 72);
    assert_eq!(aio.incomplete(), 200);
    assert_eq!(aio.incomplete_cnt().load(Ordering::SeqCst), 200);
    // The backend was handed one batch: the first 128, in the order in which
    // they came.
    assert_eq!(handed, vec![(0..128).collect::<Vec<u32>>()]);
    assert_eq!(be.batches, 1);
    let tags: Vec<u64> = be.held.iter().map(|held| held.0).collect();
    assert_eq!(tags, (0..128).collect::<Vec<u64>>());
    assert!(aio.batch().is_empty());
}
