# libs_processing

Verified routines for laser-induced breakdown spectroscopy (LIBS) data.

- `src/` is the library, verified with Verus: the binary file layout
  (`records`), the wavelength-bin search (`lambda_search`), row selection in
  single spectra (`spectra`), the shot and data-file naming of a scan directory
  (`shots`), the comma split of CSV lines (`csv_line`), and IEEE-754 comparison on `f32` bit patterns (`float_order`). The
  library holds no floating-point values: numbers travel as their bit patterns.
- `app/` is the program around it: file and directory access, float
  arithmetic (averaging, interpolation), printing and plotting with `plotly`.
- `tests/` exercises the library on concrete values.
