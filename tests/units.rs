use microkernel::addr::{Addr, PhysAddr, VirtAddr};
use microkernel::apps::{
    cell_visible, clock_line, clock_text, lfsr_next, life_rule, life_step, matrix_glyph, plasma_bg,
    print_message, print_row, quadrant_origin, send_clear, send_draw_cell, send_print, MatrixColumn,
    LIFE_H, LIFE_W,
};
use microkernel::constants::{PAGE_R, PAGE_SIZE, PAGE_W, PAGE_X};
use microkernel::ipc::{Ipc, Message, RecvStatus, SendStatus, Src};
use microkernel::memory::{alloc_pages, map_page, BumpAllocator, PhysMemory};
use microkernel::process::{ProcessManager, RunQueue};
use microkernel::sbi::{putchar, sbi_result, SBI_EID_TIME};
use microkernel::timer::{handle_timer_irq, init_timer, time_from_reads};

#[test]
fn run_queue_is_fifo_and_skips_idle() {
    let mut q = RunQueue::new();
    q.enqueue(3);
    q.enqueue(0);
    q.enqueue(5);
    assert_eq!(q.dequeue(), Some(3));
    assert_eq!(q.dequeue(), Some(5));
    assert_eq!(q.dequeue(), None);
}

#[test]
fn run_queue_wraps_round() {
    let mut q = RunQueue::new();
    for round in 0..3 {
        for pid in 1..8 {
            q.enqueue(pid);
        }
        for pid in 1..8 {
            assert_eq!(q.dequeue(), Some(pid), "round {}", round);
        }
        assert_eq!(q.dequeue(), None);
    }
}

#[test]
fn bump_allocator_aligns_and_stops_at_end() {
    let mut a = BumpAllocator::new(0x1001, 0x3000);
    assert_eq!(a.allocate(16, 0x1000), Some(0x2000));
    assert_eq!(a.allocate(8, 8), Some(0x2010));
    assert_eq!(a.allocate(0x1000, 0x1000), None);
    assert_eq!(a.allocate(0xfe8, 1), Some(0x2018));
    assert_eq!(a.allocate(1, 1), None);
}

#[test]
fn alloc_pages_is_contiguous() {
    let mut mem = PhysMemory::new(0x8020_0000, 0x8040_0000, 0x8040_4000);
    assert_eq!(mem.free_page_count(), 4);
    let p0 = alloc_pages(&mut mem, 2);
    let p1 = alloc_pages(&mut mem, 1);
    assert_eq!(p0.as_usize(), 0x8040_0000);
    assert_eq!(p1.as_usize(), 0x8040_2000);
    assert_eq!(mem.free_page_count(), 1);
    for page in [0x8040_0000usize, 0x8040_1000, 0x8040_2000] {
        for j in [0usize, 1, 1023] {
            assert_eq!(mem.read_entry(PhysAddr::from_usize(page), j), 0);
        }
    }
}

#[test]
fn map_page_writes_sv32_entries() {
    let mut mem = PhysMemory::new(0x8020_0000, 0x8040_0000, 0x8050_0000);
    let root = mem.new_page_table();
    let va = VirtAddr::from_usize(0x8040_3000);
    let pa = PhysAddr::from_usize(0x8030_5000);
    map_page(&mut mem, root, va, pa, PAGE_R | PAGE_W);
    // the level-0 table went to the next free page
    assert_eq!(mem.next_free_page(), root.as_usize() + 2 * PAGE_SIZE);
    let l1 = mem.read_entry(root, 0x8040_3000 >> 22);
    assert_eq!(l1, (((root.as_usize() + PAGE_SIZE) >> 12) << 10) as u32 | 1);
    let l0 = mem.read_entry(PhysAddr::from_usize(root.as_usize() + PAGE_SIZE), (0x8040_3000 >> 12) & 0x3ff);
    assert_eq!(l0, ((0x8030_5000usize >> 12) << 10) as u32 | 2 | 4 | 1);
    // the level-1 entry points at the table with no R, W or X bits
    assert_eq!(l1 & 0xe, 0);
    // a second page in the same region reuses the table and keeps the level-1 entry
    map_page(&mut mem, root, VirtAddr::from_usize(0x8040_4000), pa, PAGE_R);
    assert_eq!(mem.next_free_page(), root.as_usize() + 2 * PAGE_SIZE);
    assert_eq!(mem.read_entry(root, 0x8040_3000 >> 22), l1);
}

#[test]
fn kernel_map_covers_the_range() {
    let mut mem = PhysMemory::new(0x8020_0000, 0x8040_0000, 0x8080_0000);
    let root = mem.new_page_table();
    assert_eq!(mem.kernel_tables_needed_count(), 2);
    mem.map_kernel(root);
    let flags = PAGE_R | PAGE_W | PAGE_X;
    for va in [0x8020_0000usize, 0x803f_f000, 0x8040_0000, 0x807f_f000] {
        let t = mem.read_entry(root, va >> 22);
        let table = PhysAddr::from_usize(((t >> 10) as usize) * PAGE_SIZE);
        assert_eq!(mem.read_entry(table, (va >> 12) & 0x3ff), ((va >> 12) << 10) as u32 | flags | 1);
    }
    // two 4 MiB regions: two level-0 tables
    assert_eq!(mem.next_free_page(), root.as_usize() + 3 * PAGE_SIZE);
}

#[test]
fn addresses_align_up() {
    let a = PhysAddr::from_usize(0x1234);
    assert_eq!(a.align_up(0x1000).as_usize(), 0x2000);
    assert!(!a.is_aligned(0x1000));
    assert!(PhysAddr::from_usize(0x3000).is_aligned(0x1000));
    assert_eq!(VirtAddr::from_usize(0x3000).align_up(0x1000).as_usize(), 0x3000);
}

#[test]
fn time_reads_combine() {
    assert_eq!(time_from_reads(1, 5, 1), Some((1u64 << 32) + 5));
    assert_eq!(time_from_reads(1, 5, 2), None);
}

#[test]
fn timer_calls_carry_the_deadline() {
    let now: u64 = (3u64 << 32) | 0xffff_0000;
    let c = handle_timer_irq(now);
    let deadline = now + 100_000;
    assert_eq!(c.a0, (deadline & 0xffff_ffff) as usize);
    assert_eq!(c.a1, (deadline >> 32) as usize);
    assert_eq!(c.a1, 4);
    assert_eq!(c.eid, SBI_EID_TIME);
    assert_eq!(c.fid, 0);
    assert_eq!(init_timer(0).a0, 100_000);
}

#[test]
fn sbi_results_and_console() {
    assert_eq!(sbi_result(-2, 7), Err(-2));
    assert_eq!(sbi_result(0, 7), Ok(7));
    let c = putchar(b'x');
    assert_eq!((c.a0, c.eid, c.fid), (b'x' as usize, 1, 0));
}

#[test]
fn demo_helpers() {
    assert_eq!(quadrant_origin(0), (1, 1));
    assert_eq!(quadrant_origin(3), (27, 107));
    assert_eq!(quadrant_origin(9), (1, 1));
    assert_eq!(plasma_bg(0, 0, 0), 1);
    assert_eq!(plasma_bg(1, 1, 1), 1 + (3 + 5 + 2) % 8);
    assert_eq!(plasma_bg(255, 255, 255), 7);
    assert_eq!(matrix_glyph(3), '3');
    assert_eq!(matrix_glyph(10), 'A');
    assert_eq!(matrix_glyph(36 + 35), 'Z');
    assert_eq!(&clock_text(3661), b"01:01:01");
    assert_eq!(&clock_text(86399 + 86400), b"23:59:59");
    let mut s: u32 = 1;
    let r = lfsr_next(&mut s);
    assert_eq!(s, 270369);
    assert_eq!(r, (270369u32 & 0xff) as u8);
}

#[test]
fn print_message_truncates() {
    match print_message(2, 1, "Plasma effect") {
        Message::DisplayPrint { display, line, text, len } => {
            assert_eq!((display, line, len), (2, 1, 13));
            assert_eq!(&text[..13], b"Plasma effect");
            assert!(text[13..].iter().all(|b| *b == 0));
        }
        other => panic!("unexpected {:?}", other),
    }
    let long = "abcdefghijklmnopqrstuvwxyz0123456789";
    match print_message(0, 0, long) {
        Message::DisplayPrint { text, len, .. } => {
            assert_eq!(len, 32);
            assert_eq!(&text[..], &long.as_bytes()[..32]);
        }
        other => panic!("unexpected {:?}", other),
    }
}

#[test]
fn display_requests_reach_the_server() {
    let mut mem = PhysMemory::new(0x8020_0000, 0x8040_0000, 0x8080_0000);
    let mut pm = ProcessManager::new(0x8010_0000);
    pm.init(&mut mem);
    assert_eq!(pm.create_process(&mut mem, 0x100), Some(1));
    assert_eq!(pm.create_process(&mut mem, 0x200), Some(2));
    pm.switch();
    assert_eq!(pm.current_pid(), 1);
    assert!(matches!(Ipc::recv(&mut pm, Src::Any), Ok(RecvStatus::Waiting)));
    pm.switch();
    assert_eq!(pm.current_pid(), 2);
    assert_eq!(send_clear(&mut pm, 3), Ok(SendStatus::Delivered));
    assert_eq!(send_print(&mut pm, 3, 0, "Clock"), Ok(SendStatus::Queued));
    pm.switch();
    assert!(matches!(Ipc::finish_recv(&mut pm), Ok(Message::DisplayClear(3))));
    match Ipc::recv(&mut pm, Src::Specific(2)) {
        Ok(RecvStatus::Received(Message::DisplayPrint { len, .. })) => assert_eq!(len, 5),
        other => panic!("unexpected {:?}", other),
    }
    pm.switch();
    assert_eq!(pm.current_pid(), 2);
    assert_eq!(Ipc::finish_send(&mut pm), Ok(()));
    assert_eq!(send_draw_cell(&mut pm, 0, 1, 2, 3, 4, '#'), Ok(SendStatus::Queued));
}

#[test]
fn life_blinker_turns() {
    let mut board = vec![0u8; LIFE_W * LIFE_H];
    for x in 4..7 {
        board[5 * LIFE_W + x] = 1;
    }
    let next = life_step(&board);
    let alive: Vec<(usize, usize)> = (0..LIFE_W * LIFE_H)
        .filter(|&i| next[i] == 1)
        .map(|i| (i % LIFE_W, i / LIFE_W))
        .collect();
    assert_eq!(alive, vec![(5, 4), (5, 5), (5, 6)]);
    assert_eq!(life_step(&next), board);
}

#[test]
fn life_wraps_at_edges() {
    let mut board = vec![0u8; LIFE_W * LIFE_H];
    // a blinker across the left/right edge of the bottom row
    board[(LIFE_H - 1) * LIFE_W + LIFE_W - 1] = 1;
    board[(LIFE_H - 1) * LIFE_W] = 1;
    board[(LIFE_H - 1) * LIFE_W + 1] = 1;
    let next = life_step(&board);
    assert_eq!(next[(LIFE_H - 2) * LIFE_W], 1);
    assert_eq!(next[(LIFE_H - 1) * LIFE_W], 1);
    assert_eq!(next[0], 1);
    assert_eq!(next.iter().filter(|&&c| c == 1).count(), 3);
    assert_eq!(life_rule(1, 4), 0);
    assert_eq!(life_rule(0, 3), 1);
}

#[test]
fn display_geometry() {
    assert_eq!(print_row(3), 3);
    assert_eq!(print_row(200), 24);
    assert!(cell_visible(104, 24));
    assert!(!cell_visible(105, 0));
}

#[test]
fn matrix_column_falls() {
    // a lit column at row 2 with a trail of 3 draws its head, two trail cells; no blank yet
    let mut c = MatrixColumn { head: 2, len: 3 };
    let mut seed: u32 = 1;
    let mut out = Vec::new();
    c.step(&mut seed, 7, &mut out);
    assert_eq!(seed, 270369);
    assert_eq!(c, MatrixColumn { head: 3, len: 3 });
    let rows: Vec<(u8, u8)> = out
        .iter()
        .map(|m| match m {
            Message::DisplayDrawCell { y, fg, .. } => (*y, *fg),
            other => panic!("unexpected {:?}", other),
        })
        .collect();
    assert_eq!(rows, vec![(2, 10), (1, 2), (0, 2)]);
    // below the screen the column only blanks the end of its trail, then empties
    let mut c = MatrixColumn { head: 22, len: 3 };
    let mut out = Vec::new();
    c.step(&mut seed, 0, &mut out);
    assert_eq!(out.len(), 1);
    assert_eq!(c.head, 23);
    let mut out = Vec::new();
    c.step(&mut seed, 0, &mut out);
    assert_eq!(out.len(), 0);
    assert_eq!(c.head, -1);
}

#[test]
fn clock_line_plain_and_garbled() {
    let mut seed: u32 = 5;
    assert_eq!(clock_line(61, &mut seed), b"00:01:01".to_vec());
    assert_eq!(seed, 5);
    // find a seed whose first draw is 0 mod 4: the line comes out backwards
    let mut s: u32 = 1;
    loop {
        let mut probe = s;
        if (lfsr_next(&mut probe) & 3) == 0 {
            break;
        }
        s += 1;
    }
    let mut seed = s;
    let line = clock_line(3600 * 12 + 34 * 60 + 30, &mut seed);
    let plain = b"12:34:30";
    assert_eq!(line.len(), 8);
    for (i, c) in line.iter().enumerate() {
        assert!(*c == b'?' || *c == plain[7 - i]);
    }
}
