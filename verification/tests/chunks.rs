use linecount::chunk::plan_chunks;
use linecount::chunk::Chunk;
use linecount::error::CountError;
use linecount::parallel::combine_partials;
use linecount::parallel::count_chunk;
use linecount::parallel::count_chunked;
use linecount::parallel::DEFAULT_WORKERS;
use linecount::scan::Scanner;

fn chunk(offset: usize, length: usize) -> Chunk {
    Chunk { offset, length }
}

fn sum_over(view: &[u8], chunks: &[Chunk]) -> u64 {
    let mut partials: Vec<Result<u64, CountError>> = Vec::new();
    for c in chunks {
        partials.push(count_chunk(view, *c, Scanner::Search));
    }
    combine_partials(&partials).unwrap()
}

#[test]
fn default_is_four_workers() {
    assert_eq!(DEFAULT_WORKERS, 4);
}

#[test]
fn plan_divides_evenly() {
    assert_eq!(plan_chunks(8, 4), vec![chunk(0, 2), chunk(2, 2), chunk(4, 2), chunk(6, 2)]);
}

#[test]
fn last_chunk_takes_the_remainder() {
    assert_eq!(plan_chunks(10, 4), vec![chunk(0, 2), chunk(2, 2), chunk(4, 2), chunk(6, 4)]);
    assert_eq!(plan_chunks(11, 3), vec![chunk(0, 3), chunk(3, 3), chunk(6, 5)]);
}

#[test]
fn one_worker_gets_everything() {
    assert_eq!(plan_chunks(10, 1), vec![chunk(0, 10)]);
    assert_eq!(plan_chunks(0, 1), vec![chunk(0, 0)]);
}

#[test]
fn short_view_leaves_all_but_the_last_chunk_empty() {
    assert_eq!(plan_chunks(3, 4), vec![chunk(0, 0), chunk(0, 0), chunk(0, 0), chunk(0, 3)]);
    assert_eq!(plan_chunks(0, 3), vec![chunk(0, 0), chunk(0, 0), chunk(0, 0)]);
    let plan = plan_chunks(1, 17);
    assert_eq!(plan.len(), 17);
    for c in &plan[..16] {
        assert_eq!(*c, chunk(0, 0));
    }
    assert_eq!(plan[16], chunk(0, 1));
}

#[test]
fn plan_covers_the_view_once() {
    for len in 0..40usize {
        for workers in 1..20usize {
            let plan = plan_chunks(len, workers);
            assert_eq!(plan.len(), workers);
            let mut at = 0usize;
            for c in &plan {
                assert_eq!(c.offset, at);
                at += c.length;
            }
            assert_eq!(at, len);
        }
    }
}

#[test]
fn plan_handles_the_largest_view() {
    let plan = plan_chunks(usize::MAX, 2);
    assert_eq!(plan, vec![chunk(0, usize::MAX / 2), chunk(usize::MAX / 2, usize::MAX / 2 + 1)]);
}

#[test]
fn chunk_is_counted_on_its_own() {
    let view = b"a\nb\n\nc\nd";
    assert_eq!(count_chunk(view, chunk(0, 8), Scanner::Naive), Ok(4));
    assert_eq!(count_chunk(view, chunk(0, 2), Scanner::Naive), Ok(1));
    assert_eq!(count_chunk(view, chunk(1, 1), Scanner::Search), Ok(1));
    assert_eq!(count_chunk(view, chunk(2, 3), Scanner::Search), Ok(2));
    assert_eq!(count_chunk(view, chunk(7, 1), Scanner::Naive), Ok(0));
    assert_eq!(count_chunk(view, chunk(8, 0), Scanner::Search), Ok(0));
    assert_eq!(count_chunk(view, chunk(3, 0), Scanner::Naive), Ok(0));
}

#[test]
fn chunk_beyond_the_view_fails_the_worker() {
    let view = b"a\nb\n";
    assert_eq!(count_chunk(view, chunk(0, 5), Scanner::Naive), Err(CountError::Worker));
    assert_eq!(count_chunk(view, chunk(3, 2), Scanner::Search), Err(CountError::Worker));
    assert_eq!(count_chunk(view, chunk(5, 0), Scanner::Naive), Err(CountError::Worker));
    assert_eq!(count_chunk(view, chunk(1, usize::MAX), Scanner::Search), Err(CountError::Worker));
    assert_eq!(count_chunk(view, chunk(usize::MAX, usize::MAX), Scanner::Naive), Err(CountError::Worker));
}

#[test]
fn partials_add_up() {
    assert_eq!(combine_partials(&[]), Ok(0));
    assert_eq!(combine_partials(&[Ok(7)]), Ok(7));
    assert_eq!(combine_partials(&[Ok(3), Ok(0), Ok(4)]), Ok(7));
    assert_eq!(combine_partials(&[Ok(u64::MAX - 1), Ok(1)]), Ok(u64::MAX));
}

#[test]
fn order_of_partials_does_not_matter() {
    assert_eq!(combine_partials(&[Ok(1), Ok(20), Ok(300)]), Ok(321));
    assert_eq!(combine_partials(&[Ok(300), Ok(1), Ok(20)]), Ok(321));
    assert_eq!(combine_partials(&[Ok(20), Ok(300), Ok(1)]), Ok(321));
}

#[test]
fn first_failed_worker_fails_the_count() {
    assert_eq!(combine_partials(&[Ok(3), Err(CountError::Worker), Ok(4)]), Err(CountError::Worker));
    assert_eq!(
        combine_partials(&[Ok(3), Err(CountError::Read), Err(CountError::Worker)]),
        Err(CountError::Read)
    );
    assert_eq!(combine_partials(&[Err(CountError::Advise(5))]), Err(CountError::Advise(5)));
}

#[test]
fn failure_wins_over_overflow() {
    assert_eq!(
        combine_partials(&[Ok(u64::MAX), Ok(1), Err(CountError::Worker)]),
        Err(CountError::Worker)
    );
}

#[test]
fn total_beyond_64_bits_is_an_error() {
    assert_eq!(combine_partials(&[Ok(u64::MAX), Ok(1)]), Err(CountError::Overflow));
    assert_eq!(combine_partials(&[Ok(u64::MAX), Ok(u64::MAX), Ok(2)]), Err(CountError::Overflow));
    assert_eq!(combine_partials(&[Ok(1), Ok(u64::MAX), Ok(0)]), Err(CountError::Overflow));
}

#[test]
fn any_partition_gives_the_count_of_the_whole() {
    let view = b"one\ntwo\n\nthree\nfour";
    let whole = count_chunk(view, chunk(0, view.len()), Scanner::Naive).unwrap();
    assert_eq!(whole, 4);
    assert_eq!(sum_over(view, &[chunk(0, 19)]), 4);
    assert_eq!(sum_over(view, &[chunk(0, 3), chunk(3, 1), chunk(4, 15)]), 4);
    assert_eq!(sum_over(view, &[chunk(0, 4), chunk(4, 4), chunk(8, 1), chunk(9, 10)]), 4);
    assert_eq!(sum_over(view, &[chunk(0, 0), chunk(0, 19), chunk(19, 0)]), 4);
    assert_eq!(sum_over(view, &[chunk(0, 8), chunk(8, 0), chunk(8, 0), chunk(8, 11)]), 4);
    for cut in 0..=view.len() {
        assert_eq!(sum_over(view, &[chunk(0, cut), chunk(cut, view.len() - cut)]), 4);
    }
    for first in 0..=view.len() {
        for second in first..=view.len() {
            let parts = [chunk(0, first), chunk(first, second - first), chunk(second, view.len() - second)];
            assert_eq!(sum_over(view, &parts), 4);
        }
    }
}

#[test]
fn planned_chunks_give_the_count_of_the_whole() {
    let view = b"a\n\nbb\nccc\n\n\ndddd\ne";
    for workers in 1..30usize {
        let plan = plan_chunks(view.len(), workers);
        assert_eq!(sum_over(view, &plan), 7);
        assert_eq!(count_chunked(view, workers, Scanner::Naive), 7);
        assert_eq!(count_chunked(view, workers, Scanner::Search), 7);
    }
}
