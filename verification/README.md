# coderec

Identifies machine code in binary files: each window of a file is compared with
byte n-gram statistics of a corpus of architectures, a heuristic assigns an
architecture (or none) to each window, and the labelled windows are consolidated
into a report and plotted.

- `src/` is the verified library (Verus):
  - `window.rs`: the window size for a file and the windows that cover it;
  - `detection.rs`: regrouping of the per-window divergences by architecture and
    by range, and of the final verdicts by architecture, in name order;
  - `names.rs`: the order of architecture names (that of `String`);
  - `verdict.rs`: the thresholds and the decision that assigns an architecture;
  - `output.rs`: consolidation of the verdicts into the reported ranges;
  - `plotting.rs`: axis key points, SI prefixes, colours and file names of plots;
  - `hex.rs`: hexadecimal numbers given on the command line.
- `app/` is the program around it: argument handling, file reading, the parallel
  computation of window statistics, the floating-point statistics and
  comparisons, JSON output and drawing.
- `tests/` exercises the library.

The corpus statistics (`corpus` module of the program: `CorpusStats`,
`load_corpus`, `is_strict`) are not part of this tree.
