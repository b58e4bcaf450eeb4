use randstream::runner::run_step;
use randstream::runner::RunError;
use randstream::runner::RunState;
use randstream::sink::Sink;
use randstream::sink::SinkStatus;

/// Drive the reseed/generate/flush loop until a terminal state.
fn run(w: &mut Logger) -> Result<(), RunError> {
    loop {
        match run_step(w) {
            RunState::RefillingSeeds => {}
            RunState::TerminatedClean => return Ok(()),
            RunState::TerminatedFatal(e) => return Err(e),
        }
    }
}

const N: usize = 1024 * 1024 * 1024;

#[derive(Default)]
struct Logger {
    n_bytes: usize,
    n_ones: usize,
    carry: u8,
    n_twins: usize,
}

impl Sink for Logger {
    fn write_block(&mut self, buf: &Vec<u8>) -> SinkStatus {
        if self.n_bytes >= N {
            return SinkStatus::Disconnected;
        }

        for &e in buf.iter() {
            self.n_ones += e.count_ones() as usize;

            let shifted = self.carry | e >> 1;
            self.carry = e << 7;
            self.n_twins += (e ^ shifted).count_zeros() as usize;
        }

        self.n_bytes += buf.len();
        SinkStatus::Written
    }
}

#[test]
fn quick_randomness_test() {
    let mut w = Logger::default();
    assert!(run(&mut w).is_ok() && w.n_bytes >= N);

    let n_samples = w.n_bytes as f64 * 8.0;
    let p_ones = w.n_ones as f64 / n_samples;
    let p_twins = w.n_twins as f64 / n_samples;

    // set margin based on binom dist 99.999% confidence interval
    let margin = 4.417173 * (0.5 * 0.5 / n_samples).sqrt();

    assert!(
        (p_ones - 0.5).abs() < margin,
        "% of set bits: {}% ({}/{}; 99.999% CI: {}%-{}%)",
        p_ones * 100.0,
        w.n_ones,
        w.n_bytes * 8,
        (0.5 - margin) * 100.0,
        (0.5 + margin) * 100.0,
    );
    assert!(
        (p_twins - 0.5).abs() < margin,
        "% of twin (00/11) bits: {}% ({}/{}; 99.999% CI: {}%-{}%)",
        p_twins * 100.0,
        w.n_twins,
        w.n_bytes * 8,
        (0.5 - margin) * 100.0,
        (0.5 + margin) * 100.0,
    );
}
