# nockchain

The verified core of a Nockchain mining node and of its zkVM jets, written in Verus.

- `src/` is the library. `field` is the Goldilocks field; `roots` and `cyclic` prove
  that 7 generates its multiplicative group, hence Fermat's little theorem;
  `batch`, `fft`, `poly_mul` are the numeric kernels, with `dft`, `sums` and `conv`
  proving that the transforms evaluate polynomials, that the inverse transform undoes
  the transform and that multiplication through transforms is the schoolbook
  product; `noun` and `jets` read and write the nouns jets take and give; `driver`,
  `kernel_pool` and `mining` hold the decisions of the app handle, of the kernel pool
  and of the mining driver; `par` runs maps and reductions on rayon.
- `app/` is the tokio shell: channels, locks, timeouts, kernel loading and the mining
  loops, each decision taken by a function of the library.
- `tests/` runs the library on concrete values.
