# wifi_densepose_cathedral

Bridges WiFi spatial data (named locations and their pairwise signal
correlations) to the spectral graph analysis of the `cathedral-probe` crate.

- `src/` is the Verus-verified library: the edge rule of the spatial graph
  (`edges`), the mirrored filling of a pairwise matrix (`matrix`), the node
  names handed to the graph (`probe`), the cluster count and the pairing of
  cluster labels with locations (`communities`),
  the Fiedler-vector layout (`embedding`), and the integer and text parts of
  the report (`report`).
- `app/` is ordinary Rust around it: everything that computes with `f64`
  (Pearson correlation, spectral metrics and clustering, sorting by float keys, printing
  float values) and the demo that prints a report.
