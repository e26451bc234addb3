use slimsync::bus::answer_gap;
use slimsync::bus::connect_setting;
use slimsync::bus::encrypt_one;
use slimsync::bus::endpoints_setting;
use slimsync::bus::gap_file;
use slimsync::bus::resent_reply;
use slimsync::bus::Bus;
use slimsync::bus::FileJob;
use slimsync::bus::GapAnswer;
use slimsync::bus::JobStep;
use slimsync::crypto::decrypt_chunk;
use slimsync::crypto::encrypt_chunk;
use slimsync::crypto::encrypt_with_nonce;
use slimsync::crypto::key_from_file;
use slimsync::crypto::salt_from_file;
use slimsync::crypto::try_decrypt_chunk;
use slimsync::ledger::LocalLedger;
use slimsync::slicer::FileTail;

fn key() -> [u8; 32] {
    let mut k = [0u8; 32];
    for i in 0..32 {
        k[i] = i as u8;
    }
    k
}

fn run(mut job: FileJob, key: &[u8; 32]) -> (Vec<Vec<(u64, Vec<u8>)>>, u64, u64) {
    let mut batches = Vec::new();
    loop {
        match job.step() {
            JobStep::NeedBytes => panic!("all bytes were given"),
            JobStep::Publish(batch) => {
                let mut opened = Vec::new();
                for (offset, length, payload) in batch {
                    let data = decrypt_chunk(key, &payload);
                    assert_eq!(data.len(), length as usize);
                    assert_eq!(payload.len(), data.len() + 28);
                    opened.push((offset, data));
                }
                batches.push(opened);
            }
            JobStep::Finished { last_offset, chunks } => return (batches, last_offset, chunks),
        }
    }
}

#[test]
fn sealed_bytes_are_known() {
    let mut nonce = [0u8; 12];
    for i in 0..12 {
        nonce[i] = 100 + i as u8;
    }
    let payload = encrypt_with_nonce(&key(), &nonce, b"hello chunk");
    assert_eq!(payload[..12], nonce);
    assert_eq!(
        payload[12..].to_vec(),
        vec![
            92, 116, 215, 166, 247, 133, 21, 58, 142, 176, 126, 211, 245, 194, 51, 62, 2, 1, 3, 35,
            40, 218, 165, 46, 192, 21, 42
        ]
    );
    assert_eq!(decrypt_chunk(&key(), &payload), b"hello chunk".to_vec());
}

#[test]
fn chunks_survive_encryption() {
    for data in [Vec::new(), b"x".to_vec(), vec![7u8; 70000]] {
        let payload = encrypt_chunk(&key(), &data);
        assert_eq!(payload.len(), data.len() + 28);
        assert_eq!(decrypt_chunk(&key(), &payload), data);
        assert_eq!(try_decrypt_chunk(&key(), &payload), Some(data));
    }
    let a = encrypt_chunk(&key(), b"same");
    let b = encrypt_chunk(&key(), b"same");
    assert_ne!(a, b);
}

#[test]
fn tampered_payloads_do_not_open() {
    let mut payload = encrypt_chunk(&key(), b"secret");
    assert!(try_decrypt_chunk(&[9u8; 32], &payload).is_none());
    payload[13] ^= 1;
    assert!(try_decrypt_chunk(&key(), &payload).is_none());
    assert!(try_decrypt_chunk(&key(), &[1, 2, 3]).is_none());
    assert!(try_decrypt_chunk(&key(), &[0u8; 20]).is_none());
}

#[test]
fn key_and_salt_files() {
    assert_eq!(key_from_file(None), [0u8; 32]);
    assert_eq!(key_from_file(Some(vec![1u8; 31])), [0u8; 32]);
    assert_eq!(key_from_file(Some(vec![1u8; 33])), [0u8; 32]);
    assert_eq!(key_from_file(Some(vec![5u8; 32])), [5u8; 32]);
    assert_eq!(salt_from_file(None), b"default-group-salt!".to_vec());
    assert_eq!(salt_from_file(Some(vec![1, 2])), vec![1, 2]);
}

#[test]
fn encrypt_one_states_the_length() {
    let (length, payload) = encrypt_one(&key(), b"abcdef");
    assert_eq!(length, 6);
    assert_eq!(payload.len(), 34);
}

#[test]
fn a_file_goes_out_whole() {
    let mut data = Vec::new();
    for i in 0..300000u32 {
        data.push((i.wrapping_mul(2654435761) >> 24) as u8);
    }
    let bus = Bus::connect(true, key(), 4);
    let job = bus.process_file("/w/segment_0012.wal", 1000, FileTail::Whole(data.clone()));
    assert_eq!(job.segment_seq(), 12);
    let (batches, last_offset, chunks) = run(job, &key());
    assert_eq!(last_offset, 301000);
    let mut at = 1000u64;
    let mut all = Vec::new();
    let mut count = 0u64;
    for batch in &batches {
        assert!(!batch.is_empty() && batch.len() <= 256);
        for (offset, bytes) in batch {
            assert_eq!(*offset, at);
            at += bytes.len() as u64;
            all.extend_from_slice(bytes);
            count += 1;
        }
    }
    assert_eq!(all, data);
    assert_eq!(count, chunks);
}

#[test]
fn batches_end_at_256_entries() {
    let data = vec![0u8; 2049 * 300];
    let job = Bus::connect(false, key(), 1).process_file("zeros.bin", 0, FileTail::Whole(data));
    assert_eq!(job.segment_seq(), 0);
    let (batches, last_offset, chunks) = run(job, &key());
    let sizes: Vec<usize> = batches.iter().map(|b| b.len()).collect();
    assert_eq!(sizes, vec![256, 44]);
    assert_eq!(chunks, 300);
    assert_eq!(last_offset, 2049 * 300);
}

#[test]
fn batches_end_at_a_mebibyte() {
    let data = vec![1u8; 63489 * 20];
    let job = Bus::connect(false, key(), 1).process_file("ones.bin", 0, FileTail::Whole(data));
    let (batches, _, _) = run(job, &key());
    let sizes: Vec<usize> = batches.iter().map(|b| b.len()).collect();
    assert_eq!(sizes, vec![17, 3]);
}

#[test]
fn streamed_job_asks_for_bytes() {
    let data = vec![1u8; 150000];
    let bus = Bus::connect(true, key(), 1);
    let mut job = bus.process_file("/w/segment_0001.wal", 0, FileTail::Streamed);
    let mut at = 0usize;
    let mut sent = 0usize;
    let last = loop {
        match job.step() {
            JobStep::NeedBytes => {
                if at == data.len() {
                    job.finish();
                } else {
                    let end = std::cmp::min(at + 40000, data.len());
                    assert!(job.accepts(end - at));
                    job.feed(data[at..end].to_vec());
                    at = end;
                }
            }
            JobStep::Publish(batch) => {
                for (_, length, _) in batch {
                    sent += length as usize;
                }
            }
            JobStep::Finished { last_offset, chunks } => {
                assert_eq!(chunks, 3);
                break last_offset;
            }
        }
    };
    assert_eq!(last, 150000);
    assert_eq!(sent, 150000);
    assert!(!job.accepts(1));
}

#[test]
fn nothing_is_sent_of_an_unreadable_file() {
    let job = Bus::connect(true, key(), 1).process_file("gone", 77, FileTail::Unreadable);
    let (batches, last_offset, chunks) = run(job, &key());
    assert!(batches.is_empty());
    assert_eq!(last_offset, 77);
    assert_eq!(chunks, 0);
}

#[test]
fn endpoints_as_json() {
    assert_eq!(connect_setting(&Vec::new()), None);
    let list = vec!["tcp/10.0.0.1:7447".to_string(), "a\"b".to_string()];
    assert_eq!(connect_setting(&list), Some("[\"tcp/10.0.0.1:7447\",\"a\\\"b\"]".to_string()));
    assert_eq!(endpoints_setting(true, None), Some(String::new()));
    assert_eq!(endpoints_setting(false, Some("[]".to_string())), None);
}

#[test]
fn seal_signals_need_a_session() {
    let bus = Bus::connect(true, key(), 9);
    assert!(bus.is_online());
    assert_eq!(bus.dev_id(), 9);
    let s = bus.send_seal("slim/seal", 120, 5000).unwrap();
    assert_eq!(s.topic, "slim/seal/120");
    assert_eq!((s.dev_id, s.segment_seq, s.sealed_size), (9, 120, 5000));
    let bus = Bus::connect(false, key(), 9);
    assert!(!bus.is_online());
    assert!(bus.send_seal("slim/seal", 1, 1).is_none());
}

#[test]
fn gap_queries_are_answered() {
    let mut ledger = LocalLedger::open(Vec::new(), Vec::new(), Vec::new(), Vec::new());
    ledger.upsert_segment(3, "/w/segment_0003.wal", "UNFINISHED", 10, 1);
    assert_eq!(gap_file(&ledger, 3), Some("/w/segment_0003.wal".to_string()));
    assert_eq!(gap_file(&ledger, 4), None);
    assert!(matches!(answer_gap(None, true, 4, 0), GapAnswer::Reply(s) if s == "unknown"));
    assert!(matches!(answer_gap(gap_file(&ledger, 3), false, 3, 0), GapAnswer::Reply(s) if s == "gone"));
    assert!(matches!(
        answer_gap(gap_file(&ledger, 3), true, 3, 2049),
        GapAnswer::Resend { file_path, segment_seq: 3, start_offset: 2049 } if file_path == "/w/segment_0003.wal"
    ));
    assert_eq!(resent_reply(0), "resent=0");
    assert_eq!(resent_reply(18446744073709551615), "resent=18446744073709551615");
}
