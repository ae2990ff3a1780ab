use std::io::{Read, Seek, SeekFrom, Write};

use block_aio::engine::{Aio, AioEngine, Submitted};
use block_aio::iov::Iovec;
use block_aio::mem::{iov_from_buf_direct, iov_to_buf_direct, HostMem};
use block_aio::misaligned::{MisalignedRw, RawAction, RawEvent};
use block_aio::request::{AioCb, OpCode, WriteZeroesState};
use block_aio::sync::{RawOp, SyncStep};
use vmm_sys_util::tempfile::TempFile;

const MEM_BASE: u64 = 0x7f00_0000_0010;

fn raw_read<F: Read + Seek>(file: &mut F, len: usize, offset: u64) -> (i64, Vec<u8>) {
    if file.seek(SeekFrom::Start(offset)).is_err() {
        return (-1, Vec::new());
    }
    let mut data = vec![0u8; len];
    let mut done = 0;
    while done < len {
        match file.read(&mut data[done..]) {
            Ok(0) => break,
            Ok(n) => done += n,
            Err(_) => return (-1, Vec::new()),
        }
    }
    data.truncate(done);
    (done as i64, data)
}

fn raw_write<F: Write + Seek>(file: &mut F, data: &[u8], offset: u64) -> i64 {
    if file.seek(SeekFrom::Start(offset)).is_err() {
        return -1;
    }
    match file.write_all(data) {
        Ok(()) => data.len() as i64,
        Err(_) => -1,
    }
}

fn run_misaligned<F: Read + Write + Seek>(
    file: &mut F,
    mem: &mut HostMem,
    job: &mut MisalignedRw,
) -> i64 {
    let mut event = RawEvent::Begin;
    loop {
        match job.step(mem, event) {
            RawAction::Read { offset, len } => {
                let (ret, data) = raw_read(file, len as usize, offset);
                event = RawEvent::Read { ret, data };
            }
            RawAction::Write { offset, len } => {
                let ret = raw_write(file, &job.buffer()[..len as usize], offset);
                event = RawEvent::Written { ret };
            }
            RawAction::Done { result } => return result,
        }
    }
}

fn run_sync<F: Read + Write + Seek>(file: &mut F, mem: &mut HostMem, cb: &AioCb<i32>) -> i64 {
    let mut step = cb.sync_begin();
    loop {
        let op = match step {
            SyncStep::Done(result) => return result,
            SyncStep::Run(op) => op,
        };
        let ret = match op {
            RawOp::Readv => {
                let (ret, data) = raw_read(file, cb.nbytes as usize, cb.offset);
                if ret < 0 {
                    ret
                } else {
                    iov_from_buf_direct(mem, &cb.iovec, &data).unwrap() as i64
                }
            }
            RawOp::Writev => {
                let mut data = vec![0u8; cb.nbytes as usize];
                let n = iov_to_buf_direct(mem, &cb.iovec, 0, &mut data).unwrap();
                raw_write(file, &data[..n], cb.offset)
            }
            RawOp::Datasync => match file.flush() {
                Ok(()) => 0,
                Err(_) => -1,
            },
            RawOp::Discard | RawOp::WriteZeroes => -1,
        };
        step = cb.sync_after(op, ret);
    }
}

fn perform_sync_rw(
    fsize: usize,
    offset: usize,
    nbytes: u64,
    opcode: OpCode,
    direct: bool,
    align: u32,
) {
    assert!(opcode == OpCode::Preadv || opcode == OpCode::Pwritev);
    // Init a file with special content.
    let mut content = vec![0u8; fsize];
    for (index, elem) in content.as_mut_slice().into_iter().enumerate() {
        *elem = index as u8;
    }
    let tmp_file = TempFile::new().unwrap();
    let mut file = tmp_file.into_file();
    file.write_all(&content).unwrap();

    // Prepare rw buf.
    let len1 = nbytes as usize / 3;
    let len2 = nbytes as usize - len1;
    let mut bytes = vec![0xEF; len1];
    bytes.extend(vec![0xFE; len2]);
    let mut mem = HostMem::new(MEM_BASE, bytes);
    let iovec = vec![
        Iovec {
            iov_base: MEM_BASE,
            iov_len: len1 as u64,
        },
        Iovec {
            iov_base: MEM_BASE + len1 as u64,
            iov_len: len2 as u64,
        },
    ];

    // Perform aio rw.
    let aiocb = AioCb {
        direct,
        req_align: align,
        buf_align: align,
        discard: false,
        write_zeroes: WriteZeroesState::Off,
        file_fd: 0,
        opcode,
        iovec,
        offset: offset as u64,
        nbytes,
        user_data: 0,
        iocompletecb: 0,
        combine_req: None,
    };
    let mut aio = Aio::new(AioEngine::Off);
    let result = match aio.submit_request(aiocb, &mem).unwrap() {
        Submitted::Misaligned { cb: _, mut job } => {
            assert!(direct);
            run_misaligned(&mut file, &mut mem, &mut job)
        }
        Submitted::Sync { cb } => {
            assert!(!direct);
            run_sync(&mut file, &mut mem, &cb)
        }
        Submitted::Queued { .. } => panic!("no backend to queue for"),
    };
    if direct {
        assert_eq!(result, 0);
    } else {
        assert_eq!(result, nbytes as i64);
    }

    // Get actual file content.
    let (ret, new_content) = raw_read(&mut file, fsize, 0);
    assert_eq!(ret, fsize as i64);
    let buf = &mem.bytes[..len1];
    let buf2 = &mem.bytes[len1..];
    if opcode == OpCode::Pwritev {
        // The expected file content.
        let ret = (&mut content[offset..]).write(buf).unwrap();
        assert_eq!(ret, buf.len());
        let ret = (&mut content[offset + buf.len()..]).write(buf2).unwrap();
        assert_eq!(ret, buf2.len());
        assert!(new_content == content);
    } else {
        assert!(buf == &new_content[offset..offset + len1]);
        assert!(buf2 == &new_content[offset + len1..offset + len1 + len2]);
    }
}

fn test_sync_rw(opcode: OpCode, direct: bool, align: u32) {
    assert!(align >= 512);
    let fsize: usize = 2 << 20;

    // perform sync rw in the same alignment section.
    let minor_align = align as u64 - 100;
    perform_sync_rw(fsize, 0, minor_align, opcode, direct, align);
    perform_sync_rw(fsize, 50, minor_align, opcode, direct, align);
    perform_sync_rw(fsize, 100, minor_align, opcode, direct, align);

    // perform sync rw across alignment sections.
    let minor_size = fsize as u64 - 100;
    perform_sync_rw(fsize, 0, minor_size, opcode, direct, align);
    perform_sync_rw(fsize, 50, minor_size, opcode, direct, align);
    perform_sync_rw(fsize, 100, minor_size, opcode, direct, align);
}

fn test_sync_rw_all_align(opcode: OpCode, direct: bool) {
    let basic_align = 512;
    test_sync_rw(opcode, direct, basic_align << 0);
    test_sync_rw(opcode, direct, basic_align << 1);
    test_sync_rw(opcode, direct, basic_align << 2);
    test_sync_rw(opcode, direct, basic_align << 3);
}

#[test]
fn test_direct_sync_rw() {
    test_sync_rw_all_align(OpCode::Preadv, true);
    test_sync_rw_all_align(OpCode::Pwritev, true);
}

#[test]
fn test_indirect_sync_rw() {
    test_sync_rw_all_align(OpCode::Preadv, false);
    test_sync_rw_all_align(OpCode::Pwritev, false);
}
