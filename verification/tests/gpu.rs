use kuroobi::nnue::gpu::{
    buffer_sizes, dense_starts, dispatch_dims, plan_step, upload_of, Batch, Csr, Lookahead, Params, TableSizes,
    ACC_DIMS, NO_PART, PA_DIMS, R_DPA, SEG,
};

fn params() -> Params {
    Params {
        n_ex: 1,
        n_masks: 2,
        nfb: 3,
        n_items: 4,
        width: 5,
        rec_off: 6,
        n_chunks: 7,
        n_a: 8,
        n_b: 9,
        n_c: 10,
        flags: 11,
        scale: 12,
        lr: 13,
        wd: 14,
        bc1: 15,
        bc2s: 16,
        alpha: 17,
        b1: 18,
        b2: 19,
        eps: 20,
    }
}

#[test]
fn groups_spread_over_two_directions() {
    assert_eq!(dispatch_dims(0), (1, 1));
    assert_eq!(dispatch_dims(65535), (65535, 1));
    assert_eq!(dispatch_dims(65536), (65535, 2));
    assert_eq!(dispatch_dims(65535 * 3 + 1), (65535, 4));
}

#[test]
fn the_slow_copy_is_taken_before_it_is_folded_in() {
    let mut l = Lookahead::new(3);
    let steps: Vec<(bool, bool)> = (0..6).map(|_| l.advance()).collect();
    let no = (false, false);
    assert_eq!(steps, vec![no, no, (true, false), no, no, (false, true)]);
    assert_eq!(Lookahead::new(0).advance(), no);
}

#[test]
fn blocks_hold_their_words_in_order() {
    let v = params().bytes();
    let words: Vec<u32> =
        v.chunks(4).map(|c| u32::from_le_bytes([c[0], c[1], c[2], c[3]])).collect();
    let mut meant: Vec<u32> = (1..=11).collect();
    meant.push(0);
    meant.extend(12..=20);
    meant.extend([0, 0, 0]);
    assert_eq!(words, meant);
}

#[test]
fn words_are_handed_over_as_memory() {
    let v = upload_of(&vec![1, 0x0203_0405]);
    let mut meant = 1u32.to_ne_bytes().to_vec();
    meant.extend(0x0203_0405u32.to_ne_bytes());
    assert_eq!(v, meant);
    assert!(upload_of(&vec![]).is_empty());
}

#[test]
fn dense_parts_follow_one_another() {
    let v = dense_starts(2, 3);
    assert_eq!(v[0..3], [0, 2 * 16 * 257, 2 * 16 * 257 + 32]);
    assert_eq!(v[8] - v[7], 3 * PA_DIMS);
    assert_eq!(v[7] - v[6], ACC_DIMS);
}

#[test]
fn cells_are_sorted_by_row() {
    // Three examples with two cells and a word behind them.
    let inp = vec![4, 1, 9, 1, 1, 9, 2, 4, 9];
    let c = Csr::build(&inp, &vec![0, 0, 0], 3, 3, 2, 6);
    assert_eq!(c.n_touched, 3);
    assert_eq!(c.slot, vec![0, 1, 2, 0, 3, 0]);
    assert_eq!(c.rowptr, vec![0, 3, 4, 6]);
    assert_eq!(c.exids, vec![0, 1, 1, 2, 0, 2]);
    assert_eq!(c.segs, vec![0, 0, 3, NO_PART, 1, 3, 4, NO_PART, 2, 4, 6, NO_PART]);
    assert!(c.multi.is_empty());
    // Examples without cells touch no row.
    let c = Csr::build(&vec![7, 8], &vec![0, 0], 2, 1, 0, 3);
    assert_eq!((c.n_touched, c.slot, c.rowptr), (0, vec![0, 0, 0], vec![0]));
    assert!(c.exids.is_empty() && c.segs.is_empty());
}

#[test]
fn long_rows_come_in_parts() {
    let n = SEG as usize + 3;
    let inp = vec![0u32; n];
    let c = Csr::build(&inp, &vec![0; n], n, 1, 1, 1);
    assert_eq!(c.segs, vec![0, 0, SEG, 0, 0, SEG, n as u32, 1]);
    assert_eq!(c.multi, vec![0, 0, 2]);
}

fn batch() -> Batch {
    // One cell, then the stage; stages 0 and 1 read stacks 1 and 0.
    let scratch = vec![3, 0, 2, 1, 3, 1];
    Batch::prepare(&scratch, 3, 2, 1, &vec![1, 0], 2, &vec![0, 1], 2, 5)
}

#[test]
fn records_line_up_by_stack() {
    let b = batch();
    assert_eq!(b.inp, vec![2, 1, 3, 1, 3, 0]);
    assert_eq!(b.stage_off, vec![0, 2, 3]);
    assert_eq!(b.ft.slot, vec![0, 0, 1, 2, 0]);
    assert_eq!(b.ft.exids, vec![0, 1, 2]);
    // The second part of the game has rows of its own.
    assert_eq!(b.pa.slot, vec![0, 0, 0, 1, 0, 0, 0, 2, 3, 0]);
    let up = b.uploads();
    assert_eq!(up.len(), 10);
    let meant: Vec<u8> = b.inp.iter().flat_map(|w| w.to_ne_bytes()).collect();
    assert_eq!(up[0], meant);
    let meant: Vec<u8> = b.pa.slot.iter().flat_map(|w| w.to_ne_bytes()).collect();
    assert_eq!(up[9], meant);
}

#[test]
fn a_step_runs_its_kernels() {
    let b = batch();
    let t = TableSizes { ft_rows: 5, pa_rows: 10, n_dense: 1000 };
    let p = plan_step(params(), &b, t, true, 99);
    assert_eq!(p.groups, vec![3, 2, 3, 0, 0, 1, 4, 1, 5, 5, 4]);
    assert_eq!((p.params[2].n_items, p.params[2].rec_off), (3, R_DPA));
    assert_eq!((p.params[7].n_a, p.params[7].n_b, p.params[7].n_c), (2, 3, 4));
    assert_eq!((p.params[10].flags, p.params[10].alpha, p.params[10].n_ex), (1, 99, 3));
    assert_eq!(p.params[0].alpha, 17);
}

/// The lists of a batch fit the buffers that are made for its size.
#[test]
fn lists_fit_their_buffers() {
    let z = buffer_sizes(1000, 2, 5, 10);
    assert_eq!((z.inp, z.cells, z.chunks), (5000, 2000, 4));
    assert_eq!((z.ft_touched, z.pa_touched), (5, 10));
    assert_eq!((z.ft_segs, z.pa_segs), (4 * (5 + 7), 4 * (10 + 7)));
    assert_eq!((z.multi, z.parts), (3 * 15, 15));
    let inp: Vec<u32> = (0..2000u32).map(|i| if i % 7 == 0 { i % 5 } else { 3 }).collect();
    let c = Csr::build(&inp, &vec![0; 1000], 1000, 2, 2, 5);
    assert!(c.segs.len() <= z.ft_segs && c.multi.len() <= z.multi);
}
