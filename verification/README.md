# rooney

Data pipeline of a model that predicts the price distribution of a crypto
asset over the next hour from the OHLC (open, high, low, close, volume)
candles of the previous hour.

`src/` is the verified library:

- `dataset`: the series of candles, flat and row-major (timestamp, low, open,
  close, high, volume), read as pairs of consecutive windows (`OHLCDataset`,
  `OHLCItem`), and the indices of the latest windows.
- `normalize`: scaling of a window pair around unity with references taken
  from its first window (`NormalizeOHLCItem`); the arithmetic is handed in.
- `batch`: stacking of window pairs into batches (`OHLCBatcher`, `OHLCBatch`).
- `split`: chunking of the windows into blocks of `4 * window_size +
  batch_size`, a seeded draw of the test blocks, and the window indices of
  the training and test blocks (`BlockSplit`).

`app/` holds the rest: CSV reading, the tensors, the network, the
projection of candles onto a price distribution, training, plots and the
download of candles.
