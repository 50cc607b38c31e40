use phomo::color_match::add_to_histograms;
use phomo::color_match::histograms_to_cdfs;
use phomo::RgbBuffer;

#[test]
fn histograms_count_the_samples() {
    let img = RgbBuffer::from_raw(2, 2, vec![1, 2, 3, 1, 2, 4, 0, 2, 3, 255, 0, 3]).unwrap();
    let mut histograms = [0usize; 768];
    add_to_histograms(&img, &mut histograms);
    assert_eq!(histograms[0], 1);
    assert_eq!(histograms[1], 2);
    assert_eq!(histograms[255], 1);
    assert_eq!(histograms[256], 1);
    assert_eq!(histograms[256 + 2], 3);
    assert_eq!(histograms[512 + 3], 3);
    assert_eq!(histograms[512 + 4], 1);
    assert_eq!(histograms.iter().sum::<usize>(), 12);
    // A second image is added to the counts.
    add_to_histograms(&RgbBuffer::from_pixel(1, 1, [1, 2, 3]), &mut histograms);
    assert_eq!(histograms[1], 3);
    assert_eq!(histograms[256 + 2], 4);
    assert_eq!(histograms[512 + 3], 4);
    assert_eq!(histograms.iter().sum::<usize>(), 15);
}

#[test]
fn running_totals_start_anew_with_every_channel() {
    let mut histograms = [0usize; 768];
    histograms[0] = 2;
    histograms[5] = 3;
    histograms[255] = 1;
    histograms[256] = 4;
    histograms[767] = 6;
    let cdfs = histograms_to_cdfs(&histograms);
    assert_eq!(cdfs[0], 2);
    assert_eq!(cdfs[4], 2);
    assert_eq!(cdfs[5], 5);
    assert_eq!(cdfs[254], 5);
    assert_eq!(cdfs[255], 6);
    assert_eq!(cdfs[256], 4);
    assert_eq!(cdfs[511], 4);
    assert_eq!(cdfs[512], 0);
    assert_eq!(cdfs[766], 0);
    assert_eq!(cdfs[767], 6);
}

#[test]
fn running_totals_of_an_image_end_at_its_pixels() {
    let img = RgbBuffer::from_raw(3, 1, vec![9, 8, 7, 9, 0, 7, 200, 8, 7]).unwrap();
    let mut histograms = [0usize; 768];
    add_to_histograms(&img, &mut histograms);
    let cdfs = histograms_to_cdfs(&histograms);
    assert_eq!(cdfs[8], 0);
    assert_eq!(cdfs[9], 2);
    assert_eq!(cdfs[199], 2);
    assert_eq!(cdfs[200], 3);
    assert_eq!(cdfs[255], 3);
    assert_eq!(cdfs[256], 1);
    assert_eq!(cdfs[256 + 8], 3);
    assert_eq!(cdfs[511], 3);
    assert_eq!(cdfs[512 + 6], 0);
    assert_eq!(cdfs[512 + 7], 3);
    assert_eq!(cdfs[767], 3);
}
